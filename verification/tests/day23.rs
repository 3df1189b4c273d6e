use aoc2023::day23::{build_graph, build_graph2, input_gen, neighbours, part1, part2, Node, Tile};

const EXAMPLE: &[u8] = br#"#.#####################
#.......#########...###
#######.#########.#.###
###.....#.>.>.###.#.###
###v#####.#v#.###.#.###
###.>...#.#.#.....#...#
###v###.#.#.#########.#
###...#.#.#.......#...#
#####.#.#.#######.#.###
#.....#.#.#.......#...#
#.#####.#.#.#########v#
#.#...#...#...###...>.#
#.#.#v#######v###.###v#
#...#.>.#...>.>.#.###.#
#####v#.#.###v#.#.###.#
#.....#...#...#.#.#...#
#.#########.###.#.#.###
#...###...#...#...#.###
###.###.#.###v#####v###
#...#...#.#.>.>.#.>.###
#.###.###.#.###.#.#v###
#.....###...###...#...#
#####################.#"#;

#[test]
fn day23_part1_example() {
    assert_eq!(part1(&input_gen(EXAMPLE).unwrap()), 94);
}

#[test]
fn day23_part2_example() {
    assert_eq!(part2(&input_gen(EXAMPLE).unwrap()), 154);
}

#[test]
fn day23_neighbours_follow_slopes() {
    let map = input_gen(b"#.##\n#>.#\n#.##\n##.#").unwrap();
    // from a slope pointing right, only the tile to the right
    let t = Node { x: 1, y: 1, tile: Tile::SlopeR };
    assert_eq!(neighbours(&t, &map), vec![Node { x: 2, y: 1, tile: Tile::Path }]);
    // the top row is never stepped onto
    let t = Node { x: 2, y: 1, tile: Tile::Path };
    assert_eq!(neighbours(&t, &map), vec![Node { x: 1, y: 1, tile: Tile::SlopeR }]);
}

#[test]
fn day23_graph_numbers_tiles_in_reading_order() {
    let map = input_gen(b"#.#\n#.#\n#.#").unwrap();
    let (_, s, d) = build_graph(&map);
    assert_eq!((s, d), (0, 2));
}

#[test]
fn day23_reader_stops_at_other_lines() {
    let map = input_gen(b"#.#\n#.#\nxyz").unwrap();
    assert_eq!(map.len(), 2);
}

#[test]
fn day23_part2_keeps_the_first_of_two_corridors() {
    // Two corridors join (1,1) and (3,3): one of 4 steps, found first, and
    // one of 8. Only the first becomes an edge, so the answer is
    // 1 + 4 + 1 + 1, though a walk of 1 + 8 + 2 steps exists.
    let map = b"#.#####\n#.....#\n#.###.#\n#.....#\n###.###\n###.###";
    assert_eq!(part2(&input_gen(map).unwrap()), 7);
    // the longest simple walk over the open tiles has 11 steps
    let rows: Vec<&[u8]> = map.split(|c| *c == b'\n').collect();
    let mut seen = vec![vec![false; 7]; 6];
    seen[0][1] = true;
    assert_eq!(longest_walk(&rows, &mut seen, (1, 0), (3, 5)), Some(11));
}

/// The most steps of a simple walk over open tiles from `at` to `to`.
fn longest_walk(rows: &[&[u8]], seen: &mut Vec<Vec<bool>>, at: (usize, usize), to: (usize, usize)) -> Option<usize> {
    if at == to {
        return Some(0);
    }
    let mut best: Option<usize> = None;
    let (x, y) = at;
    let steps = [(x.wrapping_sub(1), y), (x + 1, y), (x, y.wrapping_sub(1)), (x, y + 1)];
    for (nx, ny) in steps {
        if ny < rows.len() && nx < rows[ny].len() && rows[ny][nx] != b'#' && !seen[ny][nx] {
            seen[ny][nx] = true;
            if let Some(d) = longest_walk(rows, seen, (nx, ny), to) {
                best = Some(best.map_or(d + 1, |b| b.max(d + 1)));
            }
            seen[ny][nx] = false;
        }
    }
    best
}

#[test]
fn day23_a_corridor_walk_can_circle_forever() {
    // The start's one step leads onto a ring: a step into the top row or the
    // left column is never taken, so from (1,1) every tile of the ring has
    // exactly one way on, and the walk never stops.
    let map = input_gen(b"#.#####\n#.....#\n#.###.#\n#.....#\n#######\n#####.#").unwrap();
    let dest = Node { x: 5, y: 5, tile: Tile::Path };
    let mut from = Node { x: 1, y: 1, tile: Tile::Path };
    let mut to = Node { x: 2, y: 1, tile: Tile::Path };
    for _ in 0..100_000 {
        let succs: Vec<Node> = neighbours(&to, &map).into_iter().filter(|n| *n != from).collect();
        assert_eq!(succs.len(), 1);
        assert!(succs[0] != dest);
        from = to;
        to = succs[0];
    }
}

#[test]
fn day23_corridor_graph_of_two_corridors() {
    let map = input_gen(b"#.#####\n#.....#\n#.###.#\n#.....#\n###.###\n###.###").unwrap();
    let (g, s, d) = build_graph2(&map).unwrap();
    assert_eq!((s, d), (0, 1));
    // start, destination, (1,1), (3,3) and (3,4); the corridor of 8 steps
    // between (1,1) and (3,3) is not an edge, the one of 4 steps is
    assert_eq!(g.node_count(), 5);
    let weights: Vec<usize> = g.edge_weights().copied().collect();
    assert!(weights.contains(&4));
    assert!(!weights.contains(&8));
}
