use aoc2023::day25::{input_gen, merge_nodes, minimum_cut, minimum_cut_phase, most_tightly_connected, part1};
use aoc2023::text::ParseError;
use petgraph::graph::NodeIndex;
use petgraph::visit::EdgeRef;
use std::collections::HashSet;

const EXAMPLE: &[u8] = br#"jqt: rhn xhk nvd
rsh: frs pzl lsr
xhk: hfx
cmg: qnr nvd lhk bvb
rhn: xhk bvb hfx
bvb: xhk hfx
pzl: lsr hfx nvd
qnr: nvd
ntq: jqt hfx bvb xhk
nvd: lhk
lsr: lhk
rzs: qnr cmg lsr rsh
frs: qnr lhk lsr"#;

fn weight_between(g: &petgraph::graph::UnGraph<usize, usize>, a: usize, b: usize) -> usize {
    g.edges(NodeIndex::new(a)).filter(|e| e.target().index() == b).map(|e| *e.weight()).sum()
}

#[test]
fn day25_part1_example() {
    assert_eq!(part1(&input_gen(EXAMPLE).unwrap()), 54);
}

#[test]
fn day25_parse() {
    let g = input_gen(EXAMPLE).unwrap();
    assert_eq!(g.node_count(), 15);
    assert_eq!(g.edge_count(), 33);
    // Names are numbered in the order they first occur.
    let g2 = input_gen(b"a: b c\nc: a").unwrap();
    assert_eq!(g2.node_count(), 3);
    let ends: Vec<(usize, usize)> = g2.edge_indices().map(|e| {
        let (x, y) = g2.edge_endpoints(e).unwrap();
        (x.index(), y.index())
    }).collect();
    assert_eq!(ends, vec![(0, 1), (0, 2), (2, 0)]);
}

#[test]
fn day25_parse_errors() {
    assert_eq!(input_gen(b"").unwrap_err(), ParseError::Syntax);
    assert_eq!(input_gen(b"a b").unwrap_err(), ParseError::Syntax);
    assert_eq!(input_gen(b"a: b ").unwrap_err(), ParseError::Syntax);
    assert_eq!(input_gen(b"a: b\n\n").unwrap_err(), ParseError::Syntax);
    assert!(input_gen(b"a: \n").is_ok());
}

#[test]
fn day25_merge() {
    // A path a - b - c - d, each wire of weight 1.
    let mut g = input_gen(b"a: b\nb: c\nc: d").unwrap();
    merge_nodes(&mut g, 1, 2);
    // The merged node (weight 2) takes index 1; node 3 (d) moves to 2.
    assert_eq!(g.node_count(), 3);
    let ws: Vec<usize> = g.node_indices().map(|n| g[n]).collect();
    assert_eq!(ws, vec![1, 2, 1]);
    assert_eq!(weight_between(&g, 0, 1), 1);
    assert_eq!(weight_between(&g, 1, 2), 1);
    assert_eq!(weight_between(&g, 0, 2), 0);
}

#[test]
fn day25_merge_adds_weights() {
    // A triangle: merging two corners joins the third to both.
    let mut g = input_gen(b"a: b c\nb: c").unwrap();
    merge_nodes(&mut g, 0, 1);
    assert_eq!(g.node_count(), 2);
    let ws: Vec<usize> = g.node_indices().map(|n| g[n]).collect();
    assert_eq!(ws, vec![2, 1]);
    assert_eq!(weight_between(&g, 0, 1), 2);
}

#[test]
fn day25_tightest() {
    let g = input_gen(b"a: b c\nb: c d\nc: d").unwrap();
    let mut set = HashSet::new();
    set.insert(0usize);
    // b and c are both joined to a; b comes first.
    assert_eq!(most_tightly_connected(&g, &set), 1);
    set.insert(1);
    // c is joined to a and b, d to b only.
    assert_eq!(most_tightly_connected(&g, &set), 2);
}

#[test]
fn day25_phase() {
    let mut g = input_gen(b"a: b c\nb: c d\nc: d").unwrap();
    // The order is a, b, c, d; d has two wires, weight 1, and the others
    // weigh 3.
    assert_eq!(minimum_cut_phase(&mut g, 0), (2, 1, 3));
    assert_eq!(g.node_count(), 3);
}

#[test]
fn day25_minimum_cut() {
    let mut g = input_gen(EXAMPLE).unwrap();
    let (cut, c1, c2) = minimum_cut(&mut g, 3);
    assert_eq!(cut, 3);
    assert_eq!(c1 * c2, 54);
    assert_eq!(c1 + c2, 15);
}

#[test]
fn day25_the_cut_found_is_a_smallest_one() {
    // Over every split of the example's 15 components into two nonempty
    // sides, the fewest wires crossing is 3, and the only such split has
    // sides of 9 and 6: what `minimum_cut` reports.
    let g = input_gen(EXAMPLE).unwrap();
    let n = g.node_count();
    let edges: Vec<(usize, usize)> = g.edge_references().map(|e| (e.source().index(), e.target().index())).collect();
    let mut best = usize::MAX;
    let mut sides = Vec::new();
    for mask in 1u32..(1u32 << n) - 1 {
        let cut = edges.iter().filter(|(a, b)| ((mask >> a) & 1) != ((mask >> b) & 1)).count();
        let size = mask.count_ones() as usize;
        if cut < best {
            best = cut;
            sides.clear();
        }
        if cut == best {
            sides.push((size, n - size));
        }
    }
    assert_eq!(best, 3);
    assert!(sides.iter().all(|&(a, b)| a * b == 54));
    let mut h = input_gen(EXAMPLE).unwrap();
    let (cut, c1, c2) = minimum_cut(&mut h, 0);
    assert_eq!(cut, best);
    assert_eq!(c1 * c2, 54);
}
