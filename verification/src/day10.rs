//! Pipe maze: the loop of pipes through the starting tile, the tile on it
//! farthest from the start, and the tiles it encloses.
use vstd::prelude::*;
use petgraph::graph::{NodeIndex, UnGraph};
use crate::grid::{lemma_rows_from_alpha, parse_grid, spec_grid};
use crate::text::{rows_view, ParseError};

verus! {

/// A tile of the sketch.
#[derive(Debug, Clone, Copy, PartialEq, Eq, Structural)]
pub enum Tile {
    /// `|`
    V,
    /// `-`
    H,
    /// `L`
    L,
    /// `J`
    J,
    /// `7`
    N7,
    /// `F`
    F,
    /// `.`
    E,
    /// `S`
    S,
}

/// The sketch of the pipes, row by row.
#[derive(Debug)]
pub struct Sketch {
    pub data: Vec<Vec<Tile>>,
}

pub open spec fn tile_alpha() -> Seq<u8> {
    seq![124u8, 45u8, 76u8, 74u8, 55u8, 70u8, 46u8, 83u8]
}

pub open spec fn tile_of(c: u8) -> Tile {
    if c == 124u8 {
        Tile::V
    } else if c == 45u8 {
        Tile::H
    } else if c == 76u8 {
        Tile::L
    } else if c == 74u8 {
        Tile::J
    } else if c == 55u8 {
        Tile::N7
    } else if c == 70u8 {
        Tile::F
    } else if c == 83u8 {
        Tile::S
    } else {
        Tile::E
    }
}

fn tile_from(c: u8) -> (t: Tile)
    ensures
        t == tile_of(c),
{
    if c == 124u8 {
        Tile::V
    } else if c == 45u8 {
        Tile::H
    } else if c == 76u8 {
        Tile::L
    } else if c == 74u8 {
        Tile::J
    } else if c == 55u8 {
        Tile::N7
    } else if c == 70u8 {
        Tile::F
    } else if c == 83u8 {
        Tile::S
    } else {
        Tile::E
    }
}

pub open spec fn tiles_view(rows: Seq<Vec<Tile>>) -> Seq<Seq<Tile>> {
    rows.map_values(|r: Vec<Tile>| r@)
}

/// Reads the sketch: lines of tiles (what follows them is left unread).
pub fn input_gen(input: &[u8]) -> (res: Result<Sketch, ParseError>)
    ensures
        match res {
            Ok(m) => spec_grid(input@, tile_alpha(), false) matches Some(rows)
                && tiles_view(m.data@) == rows.map_values(|r: Seq<u8>| r.map_values(|c: u8| tile_of(c))),
            Err(e) => e == ParseError::Syntax && spec_grid(input@, tile_alpha(), false) is None,
        },
{
    let alpha: Vec<u8> = vec![124u8, 45u8, 76u8, 74u8, 55u8, 70u8, 46u8, 83u8];
    assert(alpha@ =~= tile_alpha());
    let rows = parse_grid(input, alpha.as_slice(), false)?;
    let ghost rv = rows_view(rows@);
    let mut out: Vec<Vec<Tile>> = Vec::new();
    let mut y: usize = 0;
    while y < rows.len()
        invariant
            y <= rows@.len(),
            rv == rows_view(rows@),
            out@.len() == y,
            forall|k: int| 0 <= k < y ==> (#[trigger] out@[k])@ == rv[k].map_values(|c: u8| tile_of(c)),
        decreases rows@.len() - y,
    {
        let mut row: Vec<Tile> = Vec::new();
        let mut x: usize = 0;
        while x < rows[y].len()
            invariant
                y < rows@.len(),
                x <= rows@[y as int]@.len(),
                rv == rows_view(rows@),
                out@.len() == y,
                forall|k: int| 0 <= k < y ==> (#[trigger] out@[k])@ == rv[k].map_values(|c: u8| tile_of(c)),
                row@ =~= rows@[y as int]@.subrange(0, x as int).map_values(|c: u8| tile_of(c)),
            decreases rows@[y as int]@.len() - x,
        {
            row.push(tile_from(rows[y][x]));
            assert(rows@[y as int]@.subrange(0, x + 1).map_values(|c: u8| tile_of(c))
                =~= rows@[y as int]@.subrange(0, x as int).map_values(|c: u8| tile_of(c)).push(tile_of(rows@[y as int]@[x as int])));
            x += 1;
        }
        assert(rows@[y as int]@.subrange(0, x as int) =~= rows@[y as int]@);
        assert(rv[y as int] == rows@[y as int]@);
        out.push(row);
        y += 1;
    }
    assert(tiles_view(out@) =~= rv.map_values(|r: Seq<u8>| r.map_values(|c: u8| tile_of(c))));
    Ok(Sketch { data: out })
}


/// A tile of the sketch as a node of the pipe graph.
#[derive(Debug, Clone, Copy, PartialEq, Eq, Structural)]
pub struct Node {
    pub x: usize,
    pub y: usize,
    pub tile: Tile,
}

/// The nodes of a pipe graph, in the order they were added.
pub uninterp spec fn pg_nodes(g: UnGraph<Node, ()>) -> Seq<Node>;

/// The edges of a pipe graph, in the order they were added.
pub uninterp spec fn pg_edges(g: UnGraph<Node, ()>) -> Seq<(int, int)>;

/// `Graph::new_undirected`: a graph without nodes or edges.
#[verifier::external_body]
fn pg_new() -> (g: UnGraph<Node, ()>)
    ensures
        pg_nodes(g) == Seq::<Node>::empty(),
        pg_edges(g) == Seq::<(int, int)>::empty(),
{
    UnGraph::new_undirected()
}

/// `Graph::add_node`: appends the node and returns its index (it panics only
/// once the `u32` indices run out).
#[verifier::external_body]
fn pg_add_node(g: &mut UnGraph<Node, ()>, n: Node) -> (id: usize)
    requires
        pg_nodes(*old(g)).len() < u32::MAX,
    ensures
        id == pg_nodes(*old(g)).len(),
        pg_nodes(*final(g)) == pg_nodes(*old(g)).push(n),
        pg_edges(*final(g)) == pg_edges(*old(g)),
{
    g.add_node(n).index()
}

/// `Graph::add_edge`: appends the edge between `a` and `b` (it panics where
/// a node does not exist or the `u32` indices run out).
#[verifier::external_body]
fn pg_add_edge(g: &mut UnGraph<Node, ()>, a: usize, b: usize)
    requires
        a < pg_nodes(*old(g)).len(),
        b < pg_nodes(*old(g)).len(),
        pg_edges(*old(g)).len() < u32::MAX,
    ensures
        pg_nodes(*final(g)) == pg_nodes(*old(g)),
        pg_edges(*final(g)) == pg_edges(*old(g)).push((a as int, b as int)),
{
    g.add_edge(NodeIndex::new(a), NodeIndex::new(b), ());
}

/// The number of tiles in the rows before row `y`.
pub open spec fn offset(rows: Seq<Seq<Tile>>, y: int) -> int
    decreases y,
{
    if y <= 0 { 0 } else { offset(rows, y - 1) + rows[y - 1].len() }
}

/// The pipe on tile `t` connects up to the pipe on tile `above`.
pub open spec fn up_link(t: Tile, above: Tile) -> bool {
    (t == Tile::V || t == Tile::L || t == Tile::J || t == Tile::S)
        && (above == Tile::V || above == Tile::N7 || above == Tile::F || above == Tile::S)
}

/// The pipe on tile `t` connects left to the pipe on tile `left`.
pub open spec fn left_link(t: Tile, left: Tile) -> bool {
    (t == Tile::H || t == Tile::J || t == Tile::N7 || t == Tile::S)
        && (left == Tile::H || left == Tile::L || left == Tile::F || left == Tile::S)
}

/// The edges that the tile at `(x, y)` adds: to the tile above it, then to
/// the tile left of it, where their pipes connect.
pub open spec fn cell_edges(rows: Seq<Seq<Tile>>, y: int, x: int) -> Seq<(int, int)> {
    let id = offset(rows, y) + x;
    (if y > 0 && up_link(rows[y][x], rows[y - 1][x]) { seq![(id, offset(rows, y - 1) + x)] } else { Seq::empty() })
        + (if x > 0 && left_link(rows[y][x], rows[y][x - 1]) { seq![(id, id - 1)] } else { Seq::empty() })
}

/// The edges added by the first `x` tiles of row `y`.
pub open spec fn row_edges(rows: Seq<Seq<Tile>>, y: int, x: int) -> Seq<(int, int)>
    decreases x,
{
    if x <= 0 { Seq::empty() } else { row_edges(rows, y, x - 1) + cell_edges(rows, y, x - 1) }
}

/// The edges added by the rows before row `y`.
pub open spec fn sketch_edges(rows: Seq<Seq<Tile>>, y: int) -> Seq<(int, int)>
    decreases y,
{
    if y <= 0 { Seq::empty() } else { sketch_edges(rows, y - 1) + row_edges(rows, y - 1, rows[y - 1].len() as int) }
}

/// The nodes of the first `x` tiles of row `y`.
pub open spec fn row_nodes(rows: Seq<Seq<Tile>>, y: int, x: int) -> Seq<Node> {
    Seq::new(x as nat, |i: int| Node { x: i as usize, y: y as usize, tile: rows[y][i] })
}

/// The nodes of the rows before row `y`, in reading order.
pub open spec fn sketch_nodes(rows: Seq<Seq<Tile>>, y: int) -> Seq<Node>
    decreases y,
{
    if y <= 0 { Seq::empty() } else { sketch_nodes(rows, y - 1) + row_nodes(rows, y - 1, rows[y - 1].len() as int) }
}

/// The index of the last start tile among the rows before row `y` and the
/// first `x` tiles of row `y`, in reading order (-1 if none).
pub open spec fn last_start(rows: Seq<Seq<Tile>>, y: int, x: int) -> int
    decreases y, x,
{
    if y < 0 || x < 0 {
        -1
    } else if x == 0 {
        if y == 0 { -1 } else { last_start(rows, y - 1, rows[y - 1].len() as int) }
    } else if rows[y][x - 1] == Tile::S {
        offset(rows, y) + x - 1
    } else {
        last_start(rows, y, x - 1)
    }
}

/// The pipe graph can be built: no row is longer than the one above it
/// (each tile has one above it, but in the first row), there is a start
/// tile, and the tiles and edges fit in `u32` indices.
pub open spec fn sketch_ok(rows: Seq<Seq<Tile>>) -> bool {
    &&& forall|y: int| 1 <= y < rows.len() ==> (#[trigger] rows[y]).len() <= rows[y - 1].len()
    &&& last_start(rows, rows.len() as int, 0) >= 0
    &&& offset(rows, rows.len() as int) < 0x7fff_ffff
    &&& rows.len() < 0x7fff_ffff
}


proof fn lemma_offset_mono(rows: Seq<Seq<Tile>>, a: int, b: int)
    requires
        0 <= a <= b <= rows.len(),
    ensures
        0 <= offset(rows, a) <= offset(rows, b),
    decreases b,
{
    if b > 0 {
        if a < b {
            lemma_offset_mono(rows, a, b - 1);
        } else {
            lemma_offset_mono(rows, b - 1, b - 1);
        }
    }
}

fn up_link_exec(t: Tile, above: Tile) -> (res: bool)
    ensures
        res == up_link(t, above),
{
    (t == Tile::V || t == Tile::L || t == Tile::J || t == Tile::S)
        && (above == Tile::V || above == Tile::N7 || above == Tile::F || above == Tile::S)
}

fn left_link_exec(t: Tile, left: Tile) -> (res: bool)
    ensures
        res == left_link(t, left),
{
    (t == Tile::H || t == Tile::J || t == Tile::N7 || t == Tile::S)
        && (left == Tile::H || left == Tile::L || left == Tile::F || left == Tile::S)
}

/// Builds the pipe graph: a node for every tile in reading order, and an
/// edge wherever the pipes of neighbouring tiles connect (see
/// `sketch_edges`); returns it with the index of the last start tile.
pub fn build_graph(map: &Sketch) -> (res: (UnGraph<Node, ()>, usize))
    requires
        sketch_ok(tiles_view(map.data@)),
    ensures
        pg_nodes(res.0) == sketch_nodes(tiles_view(map.data@), map.data@.len() as int),
        pg_edges(res.0) == sketch_edges(tiles_view(map.data@), map.data@.len() as int),
        res.1 == last_start(tiles_view(map.data@), map.data@.len() as int, 0),
        res.1 < pg_nodes(res.0).len(),
{
    let ghost rows = tiles_view(map.data@);
    let ghost h = rows.len() as int;
    let mut s_id: Option<usize> = None;
    let mut g = pg_new();
    let mut row_start: usize = 0;
    let mut prev_start: usize = 0;
    let mut y: usize = 0;
    proof {
        lemma_offset_mono(rows, 0, h);
    }
    while y < map.data.len()
        invariant
            rows == tiles_view(map.data@),
            h == rows.len(),
            sketch_ok(rows),
            y <= h,
            row_start == offset(rows, y as int),
            y > 0 ==> prev_start == offset(rows, y - 1),
            pg_nodes(g) == sketch_nodes(rows, y as int),
            pg_edges(g) == sketch_edges(rows, y as int),
            pg_nodes(g).len() == offset(rows, y as int),
            pg_edges(g).len() <= 2 * offset(rows, y as int),
            s_id == if last_start(rows, y as int, 0) >= 0 { Some(last_start(rows, y as int, 0) as usize) } else { None::<usize> },
            last_start(rows, y as int, 0) < offset(rows, y as int),
        decreases h - y,
    {
        let ghost yy = y as int;
        proof {
            lemma_offset_mono(rows, yy + 1, h);
            assert(rows[yy] == map.data@[yy]@);
        }
        let mut x: usize = 0;
        while x < map.data[y].len()
            invariant
                rows == tiles_view(map.data@),
                h == rows.len(),
                sketch_ok(rows),
                yy == y,
                y < h,
                rows[yy] == map.data@[yy]@,
                offset(rows, yy + 1) < 0x7fff_ffff,
                x <= rows[yy].len(),
                row_start == offset(rows, yy),
                y > 0 ==> prev_start == offset(rows, yy - 1),
                pg_nodes(g) == sketch_nodes(rows, yy) + row_nodes(rows, yy, x as int),
                pg_edges(g) == sketch_edges(rows, yy) + row_edges(rows, yy, x as int),
                pg_nodes(g).len() == offset(rows, yy) + x,
                pg_edges(g).len() <= 2 * (offset(rows, yy) + x),
                s_id == if last_start(rows, yy, x as int) >= 0 { Some(last_start(rows, yy, x as int) as usize) } else { None::<usize> },
                last_start(rows, yy, x as int) < offset(rows, yy) + x,
            decreases rows[yy].len() - x,
        {
            let t = map.data[y][x];
            let n = Node { x, y, tile: t };
            let ghost before_nodes = pg_nodes(g);
            let ghost before_edges = pg_edges(g);
            let id = pg_add_node(&mut g, n);
            assert(pg_nodes(g) =~= sketch_nodes(rows, yy) + row_nodes(rows, yy, x + 1));
            if t == Tile::S {
                s_id = Some(id);
            }
            let ghost mut added: Seq<(int, int)> = Seq::empty();
            if y > 0 {
                proof {
                    assert(rows[yy - 1] == map.data@[yy - 1]@);
                    assert(rows[yy].len() <= rows[yy - 1].len());
                    lemma_offset_mono(rows, yy - 1, yy);
                }
                let nt = map.data[y - 1][x];
                if up_link_exec(t, nt) {
                    pg_add_edge(&mut g, id, prev_start + x);
                    proof {
                        added = added.push((id as int, (prev_start + x) as int));
                    }
                }
            }
            if x > 0 {
                let lt = map.data[y][x - 1];
                if left_link_exec(t, lt) {
                    pg_add_edge(&mut g, id, id - 1);
                    proof {
                        added = added.push((id as int, (id - 1) as int));
                    }
                }
            }
            proof {
                assert(added =~= cell_edges(rows, yy, x as int));
                assert(pg_edges(g) =~= before_edges + added);
                assert(pg_edges(g) =~= sketch_edges(rows, yy) + row_edges(rows, yy, x + 1));
            }
            x += 1;
        }
        proof {
            assert(sketch_nodes(rows, yy + 1) =~= sketch_nodes(rows, yy) + row_nodes(rows, yy, rows[yy].len() as int));
            assert(last_start(rows, yy + 1, 0) == last_start(rows, yy, rows[yy].len() as int));
        }
        prev_start = row_start;
        row_start = row_start + map.data[y].len();
        y += 1;
    }
    proof {
        assert(last_start(rows, h, 0) >= 0);
    }
    match s_id {
        Some(i) => (g, i),
        None => (g, 0),
    }
}


/// Some edge joins `a` and `b`.
pub open spec fn linked(edges: Seq<(int, int)>, a: int, b: int) -> bool {
    exists|i: int| 0 <= i < edges.len() && ((#[trigger] edges[i]).0 == a && edges[i].1 == b || edges[i].0 == b && edges[i].1 == a)
}

/// A walk of at most `k` edges leads from `a` to `b`.
pub open spec fn walk_within(edges: Seq<(int, int)>, a: int, b: int, k: nat) -> bool
    decreases k,
{
    if k == 0 {
        a == b
    } else {
        walk_within(edges, a, b, (k - 1) as nat) || exists|m: int| #[trigger] walk_within(edges, a, m, (k - 1) as nat) && linked(edges, m, b)
    }
}

/// Some walk leads from `a` to `b`.
pub open spec fn connected(edges: Seq<(int, int)>, a: int, b: int) -> bool {
    exists|k: nat| #[trigger] walk_within(edges, a, b, k)
}

/// The shortest walk from `a` to `b` has `d` edges.
pub open spec fn steps_are(edges: Seq<(int, int)>, a: int, b: int, d: nat) -> bool {
    walk_within(edges, a, b, d) && (d == 0 || !walk_within(edges, a, b, (d - 1) as nat))
}

/// The list `c` holds the node `v`.
pub open spec fn lists_node(c: Seq<usize>, v: int) -> bool {
    exists|i: int| 0 <= i < c.len() && #[trigger] c[i] as int == v
}

/// `res` lists the connected components of the graph of `n` nodes: each
/// lists, once each, exactly the nodes connected to any of its nodes, and
/// every node is in one.
pub open spec fn components(n: int, edges: Seq<(int, int)>, res: Seq<Seq<usize>>) -> bool {
    &&& forall|c: int, i: int| 0 <= c < res.len() && 0 <= i < res[c].len() ==> #[trigger] res[c][i] < n
    &&& forall|c: int| 0 <= c < res.len() ==> (#[trigger] res[c]).len() >= 1
    &&& forall|c: int, i: int, j: int| 0 <= c < res.len() && 0 <= i < j < res[c].len() ==> #[trigger] res[c][i] != #[trigger] res[c][j]
    &&& forall|c: int, i: int, v: int| 0 <= c < res.len() && 0 <= i < res[c].len() && 0 <= v < n
        ==> (#[trigger] lists_node(res[c], v) <==> connected(edges, #[trigger] res[c][i] as int, v))
    &&& forall|v: int| 0 <= v < n ==> #[trigger] in_some(res, v)
}

/// Some component lists `v`.
pub open spec fn in_some(res: Seq<Seq<usize>>, v: int) -> bool {
    exists|c: int| 0 <= c < res.len() && #[trigger] lists_node(res[c], v)
}

/// `petgraph::algo::kosaraju_scc` on a pipe graph, each node by its index:
/// for an undirected graph, as its documentation says, the strongly
/// connected components are the connected components.
#[verifier::external_body]
fn pg_components(g: &UnGraph<Node, ()>) -> (res: Vec<Vec<usize>>)
    ensures
        components(pg_nodes(*g).len() as int, pg_edges(*g), res@.map_values(|c: Vec<usize>| c@)),
{
    petgraph::algo::kosaraju_scc(g).into_iter().map(|c: Vec<NodeIndex>| c.into_iter().map(|n: NodeIndex| n.index()).collect()).collect()
}

/// `petgraph::algo::dijkstra` from `s` with every edge costing 1, as a
/// vector by node index: the number of edges of a shortest walk from `s`,
/// for the nodes that can be reached.
#[verifier::external_body]
fn pg_distances(g: &UnGraph<Node, ()>, s: usize) -> (res: Vec<Option<i64>>)
    requires
        s < pg_nodes(*g).len(),
    ensures
        res@.len() == pg_nodes(*g).len() && forall|v: int| 0 <= v < res@.len() ==> match #[trigger] res@[v] {
            Some(d) => d >= 0 && steps_are(pg_edges(*g), s as int, v, d as nat),
            None => !connected(pg_edges(*g), s as int, v),
        },
{
    let dist = petgraph::algo::dijkstra(g, NodeIndex::new(s), None, |_| 1i64);
    (0..g.node_count()).map(|i: usize| dist.get(&NodeIndex::new(i)).copied()).collect()
}

/// The node at index `i` (`Graph::node_weight`).
#[verifier::external_body]
fn pg_node(g: &UnGraph<Node, ()>, i: usize) -> (res: Node)
    requires
        i < pg_nodes(*g).len(),
    ensures
        res == pg_nodes(*g)[i as int],
{
    *g.node_weight(NodeIndex::new(i)).unwrap()
}

/// The node `v` is on the loop through `s`: connected to `s`, where some
/// node other than `s` is.
pub open spec fn on_loop(edges: Seq<(int, int)>, n: int, s: int, v: int) -> bool {
    &&& 0 <= v < n
    &&& connected(edges, s, v)
    &&& exists|u: int| 0 <= u < n && u != s && #[trigger] connected(edges, s, u)
}

fn copy_ids(v: &Vec<usize>) -> (res: Vec<usize>)
    ensures
        res@ == v@,
{
    let mut out: Vec<usize> = Vec::new();
    let mut i: usize = 0;
    while i < v.len()
        invariant
            i <= v@.len(),
            out@ == v@.take(i as int),
        decreases v@.len() - i,
    {
        out.push(v[i]);
        assert(out@ =~= v@.take(i + 1));
        i += 1;
    }
    assert(v@.take(i as int) =~= v@);
    out
}

/// The nodes of the loop through `s`, each once: its connected component if
/// that has more than one node, else none.
#[verifier::loop_isolation(false)]
pub fn get_loop(g: &UnGraph<Node, ()>, s_id: usize) -> (res: Vec<usize>)
    requires
        s_id < pg_nodes(*g).len(),
    ensures
        forall|v: int| 0 <= v < pg_nodes(*g).len() ==> (lists_node(res@, v) <==> on_loop(pg_edges(*g), pg_nodes(*g).len() as int, s_id as int, v)),
        forall|i: int, j: int| 0 <= i < j < res@.len() ==> res@[i] != res@[j],
        forall|i: int| 0 <= i < res@.len() ==> res@[i] < pg_nodes(*g).len(),
{
    let ghost n = pg_nodes(*g).len() as int;
    let ghost edges = pg_edges(*g);
    let sccs = pg_components(g);
    let ghost cs = sccs@.map_values(|c: Vec<usize>| c@);
    let mut k: usize = 0;
    while k < sccs.len()
        invariant
            cs == sccs@.map_values(|c: Vec<usize>| c@),
            components(n, edges, cs),
            0 <= s_id < n,
            k <= sccs@.len(),
            forall|c: int| 0 <= c < k ==> (#[trigger] cs[c]).len() <= 1 || !lists_node(cs[c], s_id as int),
        decreases sccs@.len() - k,
    {
        let scc = &sccs[k];
        assert(scc@ == cs[k as int]);
        if scc.len() > 1 {
            let mut j: usize = 0;
            let mut found = false;
            while j < scc.len()
                invariant
                    j <= scc@.len(),
                    found == exists|i: int| 0 <= i < j && #[trigger] scc@[i] == s_id,
                decreases scc@.len() - j,
            {
                if scc[j] == s_id {
                    found = true;
                }
                j += 1;
            }
            if found {
                proof {
                    let c = k as int;
                    let i = choose|i: int| 0 <= i < scc@.len() && #[trigger] scc@[i] == s_id;
                    assert(cs[c][i] == s_id);
                    let u = if scc@[0] != s_id { scc@[0] } else { scc@[1] };
                    assert(scc@[0] != scc@[1]);
                    assert(u < n);
                    assert(lists_node(cs[c], u as int)) by {
                        if scc@[0] != s_id {
                            assert(cs[c][0] as int == u as int);
                        } else {
                            assert(cs[c][1] as int == u as int);
                        }
                    }
                    assert(connected(edges, s_id as int, u as int));
                    assert forall|v: int| 0 <= v < n implies (lists_node(scc@, v) <==> on_loop(edges, n, s_id as int, v)) by {
                        assert(lists_node(cs[c], v) <==> connected(edges, cs[c][i] as int, v));
                    }
                }
                return copy_ids(scc);
            }
        }
        k += 1;
    }
    proof {
        assert forall|v: int| 0 <= v < n implies !on_loop(edges, n, s_id as int, v) by {
            if on_loop(edges, n, s_id as int, v) {
                let u = choose|u: int| 0 <= u < n && u != s_id && #[trigger] connected(edges, s_id as int, u);
                assert(in_some(cs, s_id as int));
                let c = choose|c: int| 0 <= c < cs.len() && #[trigger] lists_node(cs[c], s_id as int);
                let i = choose|i: int| 0 <= i < cs[c].len() && #[trigger] cs[c][i] as int == s_id as int;
                assert(lists_node(cs[c], u) <==> connected(edges, cs[c][i] as int, u));
                let j = choose|j: int| 0 <= j < cs[c].len() && #[trigger] cs[c][j] as int == u;
                assert(cs[c][i] != cs[c][j]);
                assert(cs[c].len() > 1);
            }
        }
    }
    Vec::new()
}


proof fn lemma_walk_mono(edges: Seq<(int, int)>, a: int, b: int, k: nat, l: nat)
    requires
        k <= l,
        walk_within(edges, a, b, k),
    ensures
        walk_within(edges, a, b, l),
    decreases l,
{
    if k < l {
        lemma_walk_mono(edges, a, b, k, (l - 1) as nat);
    }
}

proof fn lemma_steps_unique(edges: Seq<(int, int)>, a: int, b: int, d1: nat, d2: nat)
    requires
        steps_are(edges, a, b, d1),
        steps_are(edges, a, b, d2),
    ensures
        d1 == d2,
{
    if d1 < d2 {
        lemma_walk_mono(edges, a, b, d1, (d2 - 1) as nat);
    } else if d2 < d1 {
        lemma_walk_mono(edges, a, b, d2, (d1 - 1) as nat);
    }
}

proof fn lemma_sketch_nodes(rows: Seq<Seq<Tile>>, y: int)
    requires
        0 <= y <= rows.len(),
    ensures
        sketch_nodes(rows, y).len() == offset(rows, y),
    decreases y,
{
    if y > 0 {
        lemma_sketch_nodes(rows, y - 1);
    }
}

/// The pipe graph of the sketch: its edges, its number of nodes and the
/// index of the start tile.
pub open spec fn sketch_graph(rows: Seq<Seq<Tile>>) -> (Seq<(int, int)>, int, int) {
    (sketch_edges(rows, rows.len() as int), offset(rows, rows.len() as int), last_start(rows, rows.len() as int, 0))
}

/// The start tile is on a loop: some other tile is connected to it.
pub open spec fn has_loop(rows: Seq<Seq<Tile>>) -> bool {
    let (edges, n, s) = sketch_graph(rows);
    exists|u: int| 0 <= u < n && u != s && #[trigger] connected(edges, s, u)
}

/// `r` is the greatest number of steps, along the loop through the start,
/// from the start to a tile of the loop.
pub open spec fn farthest(rows: Seq<Seq<Tile>>, r: int) -> bool {
    let (edges, n, s) = sketch_graph(rows);
    &&& r >= 0
    &&& exists|v: int| on_loop(edges, n, s, v) && #[trigger] steps_are(edges, s, v, r as nat)
    &&& forall|v: int, d: nat| on_loop(edges, n, s, v) && #[trigger] steps_are(edges, s, v, d) ==> d <= r
}

/// The number of steps from the start to the farthest tile of the loop.
pub fn part1(input: &Sketch) -> (res: i64)
    requires
        sketch_ok(tiles_view(input.data@)),
        has_loop(tiles_view(input.data@)),
    ensures
        farthest(tiles_view(input.data@), res as int),
{
    let ghost rows = tiles_view(input.data@);
    let (g, s_id) = build_graph(input);
    proof {
        lemma_sketch_nodes(rows, rows.len() as int);
        let s = last_start(rows, rows.len() as int, 0);
        assert(s >= 0);
    }
    let ghost (edges, n, s) = sketch_graph(rows);
    let lp = get_loop(&g, s_id);
    let dists = pg_distances(&g, s_id);
    proof {
        let u = choose|u: int| 0 <= u < n && u != s && #[trigger] connected(edges, s, u);
        assert(on_loop(edges, n, s, u));
        assert(lists_node(lp@, u));
    }
    let mut best: i64 = 0;
    let mut i: usize = 0;
    while i < lp.len()
        invariant
            edges == pg_edges(g),
            n == pg_nodes(g).len(),
            s == s_id,
            0 <= s < n,
            forall|v: int| 0 <= v < n ==> (lists_node(lp@, v) <==> on_loop(edges, n, s, v)),
            forall|j: int| 0 <= j < lp@.len() ==> lp@[j] < n,
            dists@.len() == n,
            forall|v: int| 0 <= v < dists@.len() ==> match #[trigger] dists@[v] {
                Some(d) => d >= 0 && steps_are(edges, s_id as int, v, d as nat),
                None => !connected(edges, s_id as int, v),
            },
            lp@.len() >= 1,
            i <= lp@.len(),
            i > 0 ==> exists|v: int| on_loop(edges, n, s, v) && #[trigger] steps_are(edges, s, v, best as nat),
            best >= 0,
            forall|j: int, d: nat| 0 <= j < i && #[trigger] steps_are(edges, s, lp@[j] as int, d) ==> d <= best,
        decreases lp@.len() - i,
    {
        let v = lp[i];
        proof {
            assert(lists_node(lp@, v as int));
            assert(on_loop(edges, n, s, v as int));
        }
        let d = match dists[v] {
            Some(d) => d,
            None => {
                proof {
                    assert(false);
                }
                0
            },
        };
        let nb = if i == 0 || d > best { d } else { best };
        proof {
            assert(steps_are(edges, s, v as int, d as nat));
            assert forall|j: int, e: nat| 0 <= j < i + 1 && #[trigger] steps_are(edges, s, lp@[j] as int, e) implies e <= nb by {
                if j == i {
                    lemma_steps_unique(edges, s, v as int, e, d as nat);
                }
            }
            if nb == d {
                assert(steps_are(edges, s, v as int, nb as nat));
            }
        }
        best = nb;
        i += 1;
    }
    proof {
        assert forall|v: int, e: nat| on_loop(edges, n, s, v) && #[trigger] steps_are(edges, s, v, e) implies e <= best by {
            assert(lists_node(lp@, v));
            let j = choose|j: int| 0 <= j < lp@.len() && #[trigger] lp@[j] as int == v;
            assert(steps_are(edges, s, lp@[j] as int, e));
        }
    }
    best
}


/// The other ends of the first `k` edges at `v`, in the order the edges were
/// added (an edge from `v` to itself counted once).
pub open spec fn other_ends(edges: Seq<(int, int)>, v: int, k: int) -> Seq<int>
    decreases k,
{
    if k <= 0 {
        Seq::empty()
    } else {
        let e = edges[k - 1];
        let rest = other_ends(edges, v, k - 1);
        if e.0 == v { rest.push(e.1) } else if e.1 == v { rest.push(e.0) } else { rest }
    }
}

/// `Graph::neighbors` on a pipe graph, collected: the other ends of the
/// edges at `v`, in some order.
#[verifier::external_body]
fn pg_neighbors(g: &UnGraph<Node, ()>, v: usize) -> (res: Vec<usize>)
    requires
        v < pg_nodes(*g).len(),
    ensures
        res@.map_values(|u: usize| u as int).to_multiset() == other_ends(pg_edges(*g), v as int, pg_edges(*g).len() as int).to_multiset(),
{
    g.neighbors(NodeIndex::new(v)).map(|n: NodeIndex| n.index()).collect()
}

proof fn lemma_pair(r: Seq<int>, o: Seq<int>)
    requires
        r.to_multiset() == o.to_multiset(),
        o.len() == 2,
        o[0] != o[1],
    ensures
        r.len() == 2,
        (r[0] == o[0] && r[1] == o[1]) || (r[0] == o[1] && r[1] == o[0]),
{
    broadcast use vstd::multiset::group_multiset_axioms;
    r.to_multiset_ensures();
    o.to_multiset_ensures();
    assert(r.len() == 2);
    assert(r.contains(r[0]) && r.contains(r[1]));
    assert(o.contains(o[0]) && o.contains(o[1]));
    assert(o.to_multiset().count(r[0]) > 0);
    assert(o.to_multiset().count(r[1]) > 0);
    assert(r.to_multiset().count(o[0]) > 0);
    assert(r.to_multiset().count(o[1]) > 0);
}

/// A side of a tile.
enum Side {
    Top,
    Bottom,
    Left,
    Right,
}

/// The two tiles are next to each other.
pub open spec fn next_to(a: Node, b: Node) -> bool {
    (a.x == b.x && (a.y + 1 == b.y || b.y + 1 == a.y)) || (a.y == b.y && (a.x + 1 == b.x || b.x + 1 == a.x))
}

/// The pipe on the start tile `ns`, given its two neighbours on the loop,
/// the one first in reading order as `a`.
pub open spec fn pipe_between(ns: Node, a: Node, b: Node) -> Tile {
    if a.y < ns.y {
        if b.y > ns.y { Tile::V } else if b.x > ns.x { Tile::L } else { Tile::J }
    } else if a.x < ns.x {
        if b.y > ns.y { Tile::N7 } else { Tile::H }
    } else {
        Tile::F
    }
}

/// The pipe on the start tile, from its two neighbours on the loop.
pub open spec fn s_shape(ns: Node, a: Node, b: Node) -> Tile {
    if (a.y, a.x) == (b.y, b.x) || a.y < b.y || (a.y == b.y && a.x < b.x) { pipe_between(ns, a, b) } else { pipe_between(ns, b, a) }
}

/// The start node has exactly two neighbours, both next to it.
pub open spec fn s_links_ok(nodes: Seq<Node>, edges: Seq<(int, int)>, s: int) -> bool {
    let o = other_ends(edges, s, edges.len() as int);
    &&& o.len() == 2
    &&& 0 <= o[0] < nodes.len() && 0 <= o[1] < nodes.len()
    &&& next_to(nodes[s], nodes[o[0]]) && next_to(nodes[s], nodes[o[1]])
    &&& (nodes[o[0]].y, nodes[o[0]].x) != (nodes[o[1]].y, nodes[o[1]].x)
}

/// The pipe on the start tile, from the sides on which its two neighbours
/// lie (see `s_shape`).
pub fn get_s_tile(g: &UnGraph<Node, ()>, s: usize) -> (res: Tile)
    requires
        s < pg_nodes(*g).len(),
        s_links_ok(pg_nodes(*g), pg_edges(*g), s as int),
    ensures
        res == s_shape(pg_nodes(*g)[s as int], pg_nodes(*g)[other_ends(pg_edges(*g), s as int, pg_edges(*g).len() as int)[0]],
            pg_nodes(*g)[other_ends(pg_edges(*g), s as int, pg_edges(*g).len() as int)[1]]),
{
    let ghost o = other_ends(pg_edges(*g), s as int, pg_edges(*g).len() as int);
    let nb = pg_neighbors(g, s);
    proof {
        lemma_pair(nb@.map_values(|u: usize| u as int), o);
    }
    let i1 = nb[0];
    let i2 = nb[1];
    let n1 = pg_node(g, i1);
    let n2 = pg_node(g, i2);
    let ns = pg_node(g, s);
    let (n1, n2) = if n1.y < n2.y || (n1.y == n2.y && n1.x < n2.x) { (n1, n2) } else { (n2, n1) };
    let s1 = if n1.y < ns.y {
        Side::Top
    } else if n1.x < ns.x {
        Side::Left
    } else {
        Side::Right
    };
    let s2 = if n2.y > ns.y {
        Side::Bottom
    } else if n2.x > ns.x {
        Side::Right
    } else {
        Side::Left
    };
    match (s1, s2) {
        (Side::Top, Side::Right) => Tile::L,
        (Side::Top, Side::Bottom) => Tile::V,
        (Side::Left, Side::Right) => Tile::H,
        (Side::Left, Side::Bottom) => Tile::N7,
        (Side::Right, Side::Bottom) => Tile::F,
        (Side::Top, Side::Left) => Tile::J,
        _ => {
            proof {
                assert(false);
            }
            Tile::E
        },
    }
}


proof fn lemma_row_widths(rows: Seq<Seq<Tile>>, y: int)
    requires
        forall|y: int| 1 <= y < rows.len() ==> (#[trigger] rows[y]).len() <= rows[y - 1].len(),
        0 <= y < rows.len(),
    ensures
        rows[y].len() <= rows[0].len(),
    decreases y,
{
    if y > 0 {
        lemma_row_widths(rows, y - 1);
    }
}

proof fn lemma_node_at(rows: Seq<Seq<Tile>>, y: int)
    requires
        0 <= y <= rows.len(),
        offset(rows, y) < 0x7fff_ffff,
        rows.len() < 0x7fff_ffff,
    ensures
        sketch_nodes(rows, y).len() == offset(rows, y),
        forall|v: int| 0 <= v < offset(rows, y) ==> {
            let nd = #[trigger] sketch_nodes(rows, y)[v];
            &&& 0 <= nd.y < y
            &&& nd.x < rows[nd.y as int].len()
            &&& offset(rows, nd.y as int) + nd.x == v
            &&& nd.tile == rows[nd.y as int][nd.x as int]
        },
    decreases y,
{
    lemma_sketch_nodes(rows, y);
    if y > 0 {
        lemma_offset_mono(rows, y - 1, y);
        lemma_node_at(rows, y - 1);
        let prev = sketch_nodes(rows, y - 1);
        let row = row_nodes(rows, y - 1, rows[y - 1].len() as int);
        assert forall|v: int| 0 <= v < offset(rows, y) implies {
            let nd = #[trigger] sketch_nodes(rows, y)[v];
            &&& 0 <= nd.y < y
            &&& nd.x < rows[nd.y as int].len()
            &&& offset(rows, nd.y as int) + nd.x == v
            &&& nd.tile == rows[nd.y as int][nd.x as int]
        } by {
            if v < offset(rows, y - 1) {
                assert(sketch_nodes(rows, y)[v] == prev[v]);
            } else {
                let x = v - offset(rows, y - 1);
                assert(0 <= x < 0x7fff_ffff);
                assert(sketch_nodes(rows, y)[v] == row[x]);
                assert(row[x].x as int == x);
                assert(row[x].y as int == y - 1);
            }
        }
    }
}

proof fn lemma_cell_id(rows: Seq<Seq<Tile>>, y: int, x: int, y2: int, x2: int)
    requires
        0 <= y < rows.len(),
        0 <= y2 < rows.len(),
        0 <= x < rows[y].len(),
        0 <= x2 < rows[y2].len(),
        offset(rows, y) + x == offset(rows, y2) + x2,
    ensures
        y == y2 && x == x2,
{
    if y < y2 {
        lemma_offset_mono(rows, y + 1, y2);
    } else if y2 < y {
        lemma_offset_mono(rows, y2 + 1, y);
    }
}

proof fn lemma_offset_cell(rows: Seq<Seq<Tile>>, y: int, x: int)
    requires
        0 <= y < rows.len(),
        0 <= x < rows[y].len(),
    ensures
        offset(rows, y) + x < offset(rows, rows.len() as int),
{
    lemma_offset_mono(rows, y + 1, rows.len() as int);
}

/// The count of crossing pipes (`|`, `J`, `L`) among the first `x` tiles.
pub open spec fn crossings(r: Seq<Tile>, x: int) -> int
    decreases x,
{
    if x <= 0 {
        0
    } else {
        crossings(r, x - 1) + if r[x - 1] == Tile::V || r[x - 1] == Tile::J || r[x - 1] == Tile::L { 1int } else { 0int }
    }
}

/// The count of the first `x` tiles that are no pipe of the loop and have an
/// odd number of crossing pipes before them in their row.
pub open spec fn inside_row(r: Seq<Tile>, x: int) -> int
    decreases x,
{
    if x <= 0 {
        0
    } else {
        inside_row(r, x - 1) + if r[x - 1] == Tile::E && crossings(r, x - 1) % 2 == 1 { 1int } else { 0int }
    }
}

/// The tiles enclosed by the loop in the first `y` rows of `m`, counted
/// across each row.
pub open spec fn inside_count(m: Seq<Seq<Tile>>, y: int) -> int
    decreases y,
{
    if y <= 0 { 0 } else { inside_count(m, y - 1) + inside_row(m[y - 1], m[y - 1].len() as int) }
}

/// The sketch reduced to the loop: the loop's pipes where they are, the
/// start tile replaced by its pipe, every other tile empty; as wide as the
/// first row.
pub open spec fn loop_map(rows: Seq<Seq<Tile>>) -> Seq<Seq<Tile>> {
    let (edges, n, s) = sketch_graph(rows);
    let nodes = sketch_nodes(rows, rows.len() as int);
    let o = other_ends(edges, s, edges.len() as int);
    let st = s_shape(nodes[s], nodes[o[0]], nodes[o[1]]);
    Seq::new(rows.len(), |y: int| Seq::new(rows[0].len(), |x: int|
        if x < rows[y].len() && on_loop(edges, n, s, offset(rows, y) + x) {
            if rows[y][x] == Tile::S { st } else { rows[y][x] }
        } else {
            Tile::E
        }))
}

/// The number of tiles enclosed by the loop (see `inside_count` and
/// `loop_map`).
pub fn part2(input: &Sketch) -> (res: i64)
    requires
        sketch_ok(tiles_view(input.data@)),
        has_loop(tiles_view(input.data@)) ==> s_links_ok(sketch_nodes(tiles_view(input.data@), input.data@.len() as int),
            sketch_graph(tiles_view(input.data@)).0, sketch_graph(tiles_view(input.data@)).2),
    ensures
        res == inside_count(loop_map(tiles_view(input.data@)), input.data@.len() as int),
{
    let ghost rows = tiles_view(input.data@);
    let ghost h = rows.len() as int;
    let (g, s_id) = build_graph(input);
    let ghost (edges, n, s) = sketch_graph(rows);
    let ghost nodes = sketch_nodes(rows, h);
    proof {
        lemma_node_at(rows, h);
        assert(h >= 1) by {
            if h == 0 {
                assert(last_start(rows, 0, 0) == -1);
            }
        }
    }
    let ghost lm = loop_map(rows);
    proof {
        lemma_offset_mono(rows, 1, h);
    }
    let lp = get_loop(&g, s_id);
    let w0 = input.data[0].len();
    assert(rows[0] == input.data@[0]@);
    let mut new_map: Vec<Vec<Tile>> = Vec::new();
    let mut y: usize = 0;
    while y < input.data.len()
        invariant
            y <= h,
            h == input.data@.len(),
            w0 == rows[0].len(),
            new_map@.len() == y,
            forall|k: int| 0 <= k < y ==> (#[trigger] new_map@[k])@ == Seq::new(w0 as nat, |x: int| Tile::E),
        decreases h - y,
    {
        let mut row: Vec<Tile> = Vec::new();
        let mut x: usize = 0;
        while x < w0
            invariant
                x <= w0,
                row@ == Seq::new(x as nat, |i: int| Tile::E),
            decreases w0 - x,
        {
            row.push(Tile::E);
            assert(row@ =~= Seq::new((x + 1) as nat, |i: int| Tile::E));
            x += 1;
        }
        new_map.push(row);
        y += 1;
    }
    let mut j: usize = 0;
    while j < lp.len()
        invariant
            rows == tiles_view(input.data@),
            h == rows.len(),
            h >= 1,
            sketch_ok(rows),
            has_loop(rows) ==> s_links_ok(nodes, edges, s),
            (edges, n, s) == sketch_graph(rows),
            nodes == sketch_nodes(rows, h),
            pg_nodes(g) == nodes,
            pg_edges(g) == edges,
            s_id == s,
            0 <= s < n,
            n == nodes.len(),
            forall|v: int| 0 <= v < offset(rows, h) ==> {
                let nd = #[trigger] nodes[v];
                &&& 0 <= nd.y < h
                &&& nd.x < rows[nd.y as int].len()
                &&& offset(rows, nd.y as int) + nd.x == v
                &&& nd.tile == rows[nd.y as int][nd.x as int]
            },
            forall|v: int| 0 <= v < n ==> (lists_node(lp@, v) <==> on_loop(edges, n, s, v)),
            forall|i: int| 0 <= i < lp@.len() ==> lp@[i] < n,
            forall|i: int, k: int| 0 <= i < k < lp@.len() ==> lp@[i] != lp@[k],
            lm == loop_map(rows),
            w0 == rows[0].len(),
            j <= lp@.len(),
            new_map@.len() == h,
            forall|y: int| 0 <= y < h ==> (#[trigger] new_map@[y])@.len() == w0,
            forall|y: int, x: int| 0 <= y < h && 0 <= x < w0 ==> (#[trigger] new_map@[y]@[x]) == if x < rows[y].len()
                && lists_node(lp@.take(j as int), offset(rows, y) + x) { lm[y][x] } else { Tile::E },
        decreases lp@.len() - j,
    {
        let v = lp[j];
        let nd = pg_node(&g, v);
        proof {
            lemma_row_widths(rows, nd.y as int);
            assert(lists_node(lp@, v as int));
            assert(on_loop(edges, n, s, v as int));
        }
        let t = if nd.tile == Tile::S { get_s_tile(&g, s_id) } else { nd.tile };
        assert(t == lm[nd.y as int][nd.x as int]);
        let ghost before = new_map@;
        new_map[nd.y][nd.x] = t;
        proof {
            assert forall|y: int, x: int| 0 <= y < h && 0 <= x < w0 implies (#[trigger] new_map@[y]@[x]) == if x < rows[y].len()
                && lists_node(lp@.take(j + 1), offset(rows, y) + x) { lm[y][x] } else { Tile::E } by {
                let id = offset(rows, y) + x;
                if x < rows[y].len() {
                    if lists_node(lp@.take(j + 1), id) && !lists_node(lp@.take(j as int), id) {
                        let i = choose|i: int| 0 <= i < lp@.take(j + 1).len() && #[trigger] lp@.take(j + 1)[i] as int == id;
                        if i < j {
                            assert(lp@.take(j as int)[i] as int == id);
                        }
                        assert(v as int == id);
                        lemma_cell_id(rows, y, x, nd.y as int, nd.x as int);
                    }
                    if lists_node(lp@.take(j as int), id) {
                        let i = choose|i: int| 0 <= i < lp@.take(j as int).len() && #[trigger] lp@.take(j as int)[i] as int == id;
                        assert(lp@.take(j + 1)[i] as int == id);
                    }
                    if y == nd.y && x == nd.x {
                        assert(lp@.take(j + 1)[j as int] as int == id);
                    }
                } else {
                    if y == nd.y && x == nd.x {
                        assert(false);
                    }
                }
            }
        }
        j += 1;
    }
    proof {
        assert(lp@.take(lp@.len() as int) =~= lp@);
        assert forall|y: int, x: int| 0 <= y < h && 0 <= x < w0 implies (#[trigger] new_map@[y]@[x]) == lm[y][x] by {
            if x < rows[y].len() {
                lemma_offset_cell(rows, y, x);
            }
        }
    }
    proof {
        lemma_offset_mono(rows, 1, h);
        assert(offset(rows, 0) == 0);
        assert(offset(rows, 1) == rows[0].len());
    }
    let mut ret: i64 = 0;
    let mut y: usize = 0;
    while y < new_map.len()
        invariant
            h == new_map@.len(),
            lm == loop_map(rows),
            lm.len() == h,
            forall|y: int| 0 <= y < h ==> (#[trigger] new_map@[y])@.len() == w0,
            forall|y: int, x: int| 0 <= y < h && 0 <= x < w0 ==> (#[trigger] new_map@[y]@[x]) == lm[y][x],
            w0 == rows[0].len(),
            w0 < 0x7fff_ffff,
            y <= h,
            h < 0x7fff_ffff,
            0 <= ret <= y * w0,
            ret == inside_count(lm, y as int),
        decreases h - y,
    {
        let mut n: u64 = 0;
        let mut x: usize = 0;
        let ghost r = lm[y as int];
        assert(r.len() == w0);
        while x < new_map[0].len()
            invariant
                h == new_map@.len(),
                y < h,
                forall|y: int| 0 <= y < h ==> (#[trigger] new_map@[y])@.len() == w0,
                forall|y: int, x: int| 0 <= y < h && 0 <= x < w0 ==> (#[trigger] new_map@[y]@[x]) == lm[y][x],
                r == lm[y as int],
                x <= w0,
                n == crossings(r, x as int),
                n <= x,
                0 <= ret - inside_count(lm, y as int) <= x,
                ret - inside_count(lm, y as int) == inside_row(r, x as int),
                ret <= y * w0 + x,
                w0 < 0x7fff_ffff,
                h < 0x7fff_ffff,
            decreases w0 - x,
        {
            proof {
                assert(y * w0 <= 0x7fff_ffff * 0x7fff_ffff) by (nonlinear_arith)
                    requires
                        y < 0x7fff_ffff,
                        w0 < 0x7fff_ffff,
                ;
            }
            match new_map[y][x] {
                Tile::E => {
                    if n % 2 == 1 {
                        ret += 1;
                    }
                },
                Tile::V | Tile::J | Tile::L => {
                    n += 1;
                },
                _ => {},
            }
            x += 1;
        }
        proof {
            assert((y + 1) * w0 == y * w0 + w0) by (nonlinear_arith);
        }
        y += 1;
    }
    ret
}

} // verus!
