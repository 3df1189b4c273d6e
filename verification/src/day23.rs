//! A long walk: the longest hike through a map of paths and slopes.
use vstd::prelude::*;
use std::collections::VecDeque;
use petgraph::graph::{Graph, NodeIndex, UnGraph};
use crate::grid::{parse_grid, spec_grid};
use crate::text::{rows_view, ParseError};

verus! {

/// A tile of the map.
#[derive(Debug, Clone, Copy, PartialEq, Eq, Structural)]
pub enum Tile {
    /// `#`
    Forest,
    /// `.`
    Path,
    /// `<`
    SlopeL,
    /// `>`
    SlopeR,
    /// `^`
    SlopeU,
    /// `v`
    SlopeD,
}

/// A tile that can be walked on, with its place.
#[derive(Debug, Clone, Copy, PartialEq, Eq, Structural)]
pub struct Node {
    pub x: usize,
    pub y: usize,
    pub tile: Tile,
}

pub open spec fn tiles_alpha() -> Seq<u8> {
    seq![46u8, 35u8, 62u8, 60u8, 94u8, 118u8]
}

pub open spec fn tile_of(c: u8) -> Tile {
    if c == 35u8 {
        Tile::Forest
    } else if c == 62u8 {
        Tile::SlopeR
    } else if c == 60u8 {
        Tile::SlopeL
    } else if c == 94u8 {
        Tile::SlopeU
    } else if c == 118u8 {
        Tile::SlopeD
    } else {
        Tile::Path
    }
}

fn tile_from(c: u8) -> (res: Tile)
    ensures
        res == tile_of(c),
{
    if c == 35u8 {
        Tile::Forest
    } else if c == 62u8 {
        Tile::SlopeR
    } else if c == 60u8 {
        Tile::SlopeL
    } else if c == 94u8 {
        Tile::SlopeU
    } else if c == 118u8 {
        Tile::SlopeD
    } else {
        Tile::Path
    }
}

/// Reads the map: rows of `.#><^v`, one per line; reading stops before the
/// first line that is no such row.
pub fn input_gen(input: &[u8]) -> (res: Result<Vec<Vec<Tile>>, ParseError>)
    ensures
        match res {
            Ok(g) => spec_grid(input@, tiles_alpha(), false) matches Some(rows) && g@.len() == rows.len()
                && forall|y: int| 0 <= y < rows.len() ==> (#[trigger] g@[y])@ == rows[y].map_values(|c: u8| tile_of(c)),
            Err(e) => e == ParseError::Syntax && spec_grid(input@, tiles_alpha(), false) is None,
        },
{
    let alpha: Vec<u8> = vec![46u8, 35u8, 62u8, 60u8, 94u8, 118u8];
    assert(alpha@ =~= tiles_alpha());
    let rows = parse_grid(input, alpha.as_slice(), false)?;
    let ghost rv = rows_view(rows@);
    let mut out: Vec<Vec<Tile>> = Vec::new();
    let mut y: usize = 0;
    while y < rows.len()
        invariant
            y <= rows@.len(),
            rv == rows_view(rows@),
            out@.len() == y,
            forall|k: int| 0 <= k < y ==> (#[trigger] out@[k])@ == rv[k].map_values(|c: u8| tile_of(c)),
        decreases rows@.len() - y,
    {
        let mut row: Vec<Tile> = Vec::new();
        let mut x: usize = 0;
        while x < rows[y].len()
            invariant
                y < rows@.len(),
                x <= rows@[y as int]@.len(),
                row@ =~= rows@[y as int]@.subrange(0, x as int).map_values(|c: u8| tile_of(c)),
            decreases rows@[y as int]@.len() - x,
        {
            row.push(tile_from(rows[y][x]));
            assert(rows@[y as int]@.subrange(0, x + 1).map_values(|c: u8| tile_of(c)) =~= rows@[y as int]@.subrange(0, x as int).map_values(|c: u8| tile_of(c)).push(tile_of(rows@[y as int]@[x as int])));
            x += 1;
        }
        assert(rows@[y as int]@.subrange(0, x as int) =~= rows@[y as int]@);
        out.push(row);
        y += 1;
    }
    Ok(out)
}

/// The rows of a map as plain values.
pub open spec fn grid(m: Seq<Vec<Tile>>) -> Seq<Seq<Tile>> {
    m.map_values(|r: Vec<Tile>| r@)
}

/// The map is a rectangle of `w` by `h` tiles, small enough that its tiles
/// and their links can be counted in a graph's `u32` indices.
pub open spec fn rect(map: Seq<Seq<Tile>>) -> bool {
    &&& map.len() >= 1
    &&& map[0].len() >= 1
    &&& forall|y: int| 0 <= y < map.len() ==> (#[trigger] map[y]).len() == map[0].len()
    &&& 5 * map.len() * map[0].len() < u32::MAX
}

pub open spec fn tile_at(map: Seq<Seq<Tile>>, x: int, y: int) -> Tile {
    map[y][x]
}

/// Whether a step from `t` to the tile at `(x, y)` may be taken: the tile
/// lies inside the map but not on its top row or left column, is no forest,
/// and is downhill of `t` where `t` is a slope.
pub open spec fn step_ok(map: Seq<Seq<Tile>>, t: Node, x: int, y: int) -> bool {
    &&& 0 < y < map.len()
    &&& 0 < x < map[0].len()
    &&& tile_at(map, x, y) != Tile::Forest
    &&& match t.tile {
        Tile::SlopeL => x < t.x,
        Tile::SlopeR => x > t.x,
        Tile::SlopeU => y < t.y,
        Tile::SlopeD => y > t.y,
        _ => true,
    }
}

pub open spec fn step_seq(map: Seq<Seq<Tile>>, t: Node, x: int, y: int) -> Seq<Node> {
    if step_ok(map, t, x, y) {
        seq![Node { x: x as usize, y: y as usize, tile: tile_at(map, x, y) }]
    } else {
        Seq::empty()
    }
}

/// The tiles that can be stepped to from `t`: up, down, left, right.
pub open spec fn nbrs(map: Seq<Seq<Tile>>, t: Node) -> Seq<Node> {
    step_seq(map, t, t.x as int, t.y - 1) + step_seq(map, t, t.x as int, t.y + 1)
        + step_seq(map, t, t.x - 1, t.y as int) + step_seq(map, t, t.x + 1, t.y as int)
}

pub proof fn lemma_rect_dims(map: Seq<Seq<Tile>>)
    requires
        rect(map),
    ensures
        map.len() < u32::MAX,
        map[0].len() < u32::MAX,
        map.len() * map[0].len() < u32::MAX,
{
    let h = map.len() as int;
    let w = map[0].len() as int;
    assert(h * w <= 5 * h * w && h <= h * w && w <= h * w) by (nonlinear_arith)
        requires
            h >= 1,
            w >= 1;
}

fn push_step(out: &mut Vec<Node>, map: &[Vec<Tile>], t: &Node, x: i64, y: i64)
    requires
        rect(grid(map@)),
    ensures
        final(out)@ == old(out)@ + step_seq(grid(map@), *t, x as int, y as int),
{
    proof { lemma_rect_dims(grid(map@)); }
    let h = map.len() as i64;
    let w = map[0].len() as i64;
    if y > 0 && x > 0 && y < h && x < w {
        assert(grid(map@)[y as int] == map@[y as int]@ && grid(map@)[0] == map@[0]@);
        let tile = map[y as usize][x as usize];
        if tile != Tile::Forest {
            let ok = match t.tile {
                Tile::SlopeL => (x as usize) < t.x,
                Tile::SlopeR => (x as usize) > t.x,
                Tile::SlopeU => (y as usize) < t.y,
                Tile::SlopeD => (y as usize) > t.y,
                _ => true,
            };
            if ok {
                out.push(Node { x: x as usize, y: y as usize, tile });
            }
        }
    }
    assert(final(out)@ =~= old(out)@ + step_seq(grid(map@), *t, x as int, y as int));
}

/// The tiles that can be stepped to from `t` (see `nbrs`).
pub fn neighbours(t: &Node, map: &[Vec<Tile>]) -> (res: Vec<Node>)
    requires
        rect(grid(map@)),
        t.x < grid(map@)[0].len(),
        t.y < grid(map@).len(),
    ensures
        res@ == nbrs(grid(map@), *t),
{
    proof { lemma_rect_dims(grid(map@)); }
    let mut out: Vec<Node> = Vec::new();
    let x = t.x as i64;
    let y = t.y as i64;
    push_step(&mut out, map, t, x, y - 1);
    push_step(&mut out, map, t, x, y + 1);
    push_step(&mut out, map, t, x - 1, y);
    push_step(&mut out, map, t, x + 1, y);
    assert(out@ =~= nbrs(grid(map@), *t));
    out
}


/// The walkable tiles of the first `n` columns of row `y`, left to right.
pub open spec fn row_nodes(map: Seq<Seq<Tile>>, y: int, n: int) -> Seq<Node>
    decreases n,
{
    if n <= 0 {
        Seq::empty()
    } else if tile_at(map, n - 1, y) == Tile::Forest {
        row_nodes(map, y, n - 1)
    } else {
        row_nodes(map, y, n - 1).push(Node { x: (n - 1) as usize, y: y as usize, tile: tile_at(map, n - 1, y) })
    }
}

/// The walkable tiles of the first `m` rows, row by row.
pub open spec fn all_nodes(map: Seq<Seq<Tile>>, m: int) -> Seq<Node>
    decreases m,
{
    if m <= 0 {
        Seq::empty()
    } else {
        all_nodes(map, m - 1) + row_nodes(map, m - 1, map[0].len() as int)
    }
}

/// The walkable tiles before `(x, y)` in reading order.
pub open spec fn nodes_before(map: Seq<Seq<Tile>>, x: int, y: int) -> Seq<Node> {
    all_nodes(map, y) + row_nodes(map, y, x)
}

/// The number of a walkable tile in the graph: its place in reading order.
pub open spec fn node_id(map: Seq<Seq<Tile>>, x: int, y: int) -> int {
    nodes_before(map, x, y).len() as int
}

/// The graph's nodes: all walkable tiles in reading order.
pub open spec fn grid_nodes(map: Seq<Seq<Tile>>) -> Seq<Node> {
    all_nodes(map, map.len() as int)
}

/// The steps out of the tile `t`, as edges of weight 1.
pub open spec fn node_edges(map: Seq<Seq<Tile>>, t: Node) -> Seq<(int, int, usize)> {
    nbrs(map, t).map_values(|n: Node| (node_id(map, t.x as int, t.y as int), node_id(map, n.x as int, n.y as int), 1usize))
}

/// The steps out of each of the tiles `ns`, in order.
pub open spec fn edges_of(map: Seq<Seq<Tile>>, ns: Seq<Node>) -> Seq<(int, int, usize)>
    decreases ns.len(),
{
    if ns.len() == 0 {
        Seq::empty()
    } else {
        edges_of(map, ns.drop_last()) + node_edges(map, ns.last())
    }
}

pub open spec fn grid_edges(map: Seq<Seq<Tile>>) -> Seq<(int, int, usize)> {
    edges_of(map, grid_nodes(map))
}

/// The last column `x < n` of row `y` that holds a path tile, or -1.
pub open spec fn last_path(map: Seq<Seq<Tile>>, y: int, n: int) -> int
    decreases n,
{
    if n <= 0 {
        -1
    } else if tile_at(map, n - 1, y) == Tile::Path {
        n - 1
    } else {
        last_path(map, y, n - 1)
    }
}

/// The start: the last path tile of the top row.
pub open spec fn start_id(map: Seq<Seq<Tile>>) -> int {
    node_id(map, last_path(map, 0, map[0].len() as int), 0)
}

/// The destination: the last path tile of the bottom row.
pub open spec fn dest_id(map: Seq<Seq<Tile>>) -> int {
    node_id(map, last_path(map, map.len() - 1, map[0].len() as int), map.len() - 1)
}

/// The map has a start and, on another row, a destination.
pub open spec fn ends_ok(map: Seq<Seq<Tile>>) -> bool {
    &&& map.len() >= 2
    &&& last_path(map, 0, map[0].len() as int) >= 0
    &&& last_path(map, map.len() - 1, map[0].len() as int) >= 0
}

pub proof fn lemma_row_nodes(map: Seq<Seq<Tile>>, y: int, n: int)
    requires
        0 <= n <= usize::MAX,
        0 <= y <= usize::MAX,
    ensures
        row_nodes(map, y, n).len() <= n,
        forall|i: int| 0 <= i < row_nodes(map, y, n).len() ==> (#[trigger] row_nodes(map, y, n)[i]).x < n
            && row_nodes(map, y, n)[i].y == y && row_nodes(map, y, n)[i].tile == tile_at(map, row_nodes(map, y, n)[i].x as int, y)
            && tile_at(map, row_nodes(map, y, n)[i].x as int, y) != Tile::Forest,
    decreases n,
{
    if n > 0 {
        lemma_row_nodes(map, y, n - 1);
    }
}

pub proof fn lemma_row_nodes_len(map: Seq<Seq<Tile>>, y: int, n: int)
    requires
        0 <= n,
    ensures
        row_nodes(map, y, n).len() <= n,
    decreases n,
{
    if n > 0 {
        lemma_row_nodes_len(map, y, n - 1);
    }
}

pub proof fn lemma_all_nodes_len(map: Seq<Seq<Tile>>, m: int)
    requires
        0 <= m,
    ensures
        all_nodes(map, m).len() <= m * map[0].len(),
    decreases m,
{
    if m > 0 {
        lemma_all_nodes_len(map, m - 1);
        lemma_row_nodes_len(map, m - 1, map[0].len() as int);
        assert((m - 1) * map[0].len() + map[0].len() == m * map[0].len()) by (nonlinear_arith);
    }
}

pub proof fn lemma_all_nodes_mono(map: Seq<Seq<Tile>>, a: int, b: int)
    requires
        0 <= a <= b,
    ensures
        all_nodes(map, a).len() <= all_nodes(map, b).len(),
        forall|i: int| 0 <= i < all_nodes(map, a).len() ==> #[trigger] all_nodes(map, a)[i] == all_nodes(map, b)[i],
    decreases b - a,
{
    if a < b {
        lemma_all_nodes_mono(map, a, b - 1);
    }
}

pub proof fn lemma_edges_of_len(map: Seq<Seq<Tile>>, ns: Seq<Node>)
    ensures
        edges_of(map, ns).len() <= 4 * ns.len(),
    decreases ns.len(),
{
    if ns.len() > 0 {
        lemma_edges_of_len(map, ns.drop_last());
    }
}

/// The number of nodes of a trail graph.
pub uninterp spec fn dg_nodes(g: Graph<Node, usize>) -> Seq<Node>;

/// The edges of a trail graph, in the order they were added: source,
/// target and weight.
pub uninterp spec fn dg_edges(g: Graph<Node, usize>) -> Seq<(int, int, usize)>;

/// `Graph::new`: a graph without nodes or edges.
#[verifier::external_body]
fn dg_new() -> (g: Graph<Node, usize>)
    ensures
        dg_nodes(g) == Seq::<Node>::empty(),
        dg_edges(g) == Seq::<(int, int, usize)>::empty(),
{
    Graph::new()
}

/// `Graph::add_node`: appends the node and returns its index (it panics only
/// once the `u32` indices run out).
#[verifier::external_body]
fn dg_add_node(g: &mut Graph<Node, usize>, n: Node) -> (id: usize)
    requires
        dg_nodes(*old(g)).len() < u32::MAX,
    ensures
        id == dg_nodes(*old(g)).len(),
        dg_nodes(*final(g)) == dg_nodes(*old(g)).push(n),
        dg_edges(*final(g)) == dg_edges(*old(g)),
{
    g.add_node(n).index()
}

/// `Graph::add_edge`: appends the edge from `a` to `b` (it panics where a
/// node does not exist or the `u32` indices run out).
#[verifier::external_body]
fn dg_add_edge(g: &mut Graph<Node, usize>, a: usize, b: usize, w: usize)
    requires
        a < dg_nodes(*old(g)).len(),
        b < dg_nodes(*old(g)).len(),
        dg_edges(*old(g)).len() < u32::MAX,
    ensures
        dg_nodes(*final(g)) == dg_nodes(*old(g)),
        dg_edges(*final(g)) == dg_edges(*old(g)).push((a as int, b as int, w)),
{
    g.add_edge(NodeIndex::new(a), NodeIndex::new(b), w);
}

/// A path that visits no node twice, from `s` to `d`, through nodes below
/// `n`, each step along an edge that `adj` admits.
pub open spec fn simple_path(adj: spec_fn(int, int) -> bool, n: int, s: int, d: int, p: Seq<usize>) -> bool {
    &&& p.len() >= 2
    &&& p[0] == s
    &&& p.last() == d
    &&& forall|i: int| 0 <= i < p.len() ==> (#[trigger] p[i]) < n
    &&& forall|i: int, j: int| 0 <= i < j < p.len() ==> p[i] != p[j]
    &&& forall|i: int| 0 <= i < p.len() - 1 ==> adj(#[trigger] p[i] as int, p[i + 1] as int)
}

/// Some edge leads from `a` to `b`.
pub open spec fn directed_adj(edges: Seq<(int, int, usize)>) -> spec_fn(int, int) -> bool {
    |a: int, b: int| exists|i: int| 0 <= i < edges.len() && (#[trigger] edges[i]).0 == a && edges[i].1 == b
}

/// `petgraph::algo::all_simple_paths` from `s` to `d`, collected: the paths
/// it yields are exactly the simple paths from `s` to `d` along the edges'
/// directions (a path may come more than once where edges run in parallel).
#[verifier::external_body]
fn dg_simple_paths(g: &Graph<Node, usize>, s: usize, d: usize) -> (res: Vec<Vec<usize>>)
    requires
        s < dg_nodes(*g).len(),
        d < dg_nodes(*g).len(),
        s != d,
    ensures
        forall|p: Seq<usize>| (exists|i: int| 0 <= i < res@.len() && (#[trigger] res@[i])@ == p) <==> simple_path(
            directed_adj(dg_edges(*g)),
            dg_nodes(*g).len() as int,
            s as int,
            d as int,
            p,
        ),
{
    petgraph::algo::all_simple_paths::<Vec<NodeIndex>, _>(g, NodeIndex::new(s), NodeIndex::new(d), 0, None)
        .map(|p: Vec<NodeIndex>| p.into_iter().map(|n: NodeIndex| n.index()).collect())
        .collect()
}


pub proof fn lemma_last_path(map: Seq<Seq<Tile>>, y: int, n: int)
    ensures
        last_path(map, y, n) >= 0 ==> last_path(map, y, n) < n && tile_at(map, last_path(map, y, n), y) == Tile::Path,
        last_path(map, y, n) >= -1,
    decreases n,
{
    if n > 0 {
        lemma_last_path(map, y, n - 1);
    }
}

pub proof fn lemma_row_nodes_mono(map: Seq<Seq<Tile>>, y: int, a: int, b: int)
    requires
        0 <= a <= b,
    ensures
        row_nodes(map, y, a).len() <= row_nodes(map, y, b).len(),
    decreases b - a,
{
    if a < b {
        lemma_row_nodes_mono(map, y, a, b - 1);
    }
}

/// A walkable tile's number lies below the number of walkable tiles.
pub proof fn lemma_node_id_bound(map: Seq<Seq<Tile>>, x: int, y: int)
    requires
        rect(map),
        0 <= x < map[0].len(),
        0 <= y < map.len(),
        tile_at(map, x, y) != Tile::Forest,
    ensures
        0 <= node_id(map, x, y) < grid_nodes(map).len(),
{
    lemma_row_nodes_mono(map, y, x + 1, map[0].len() as int);
    lemma_all_nodes_mono(map, y + 1, map.len() as int);
}

/// The top row's tiles come first.
pub proof fn lemma_ids_differ(map: Seq<Seq<Tile>>, x1: int, x2: int, y2: int)
    requires
        rect(map),
        0 <= x1 < map[0].len(),
        0 <= x2 < map[0].len(),
        1 <= y2 < map.len(),
        tile_at(map, x1, 0) != Tile::Forest,
    ensures
        node_id(map, x1, 0) < node_id(map, x2, y2),
{
    lemma_row_nodes_mono(map, 0, x1 + 1, map[0].len() as int);
    lemma_all_nodes_mono(map, 1, y2);
}

/// Builds the trail graph: a node per walkable tile, in reading order, and
/// an edge of weight 1 per step that may be taken; with the start and the
/// destination.
pub fn build_graph(map: &[Vec<Tile>]) -> (res: (Graph<Node, usize>, usize, usize))
    requires
        rect(grid(map@)),
        ends_ok(grid(map@)),
    ensures
        dg_nodes(res.0) == grid_nodes(grid(map@)),
        dg_edges(res.0) == grid_edges(grid(map@)),
        res.1 == start_id(grid(map@)),
        res.2 == dest_id(grid(map@)),
{
    proof { lemma_rect_dims(grid(map@)); }
    let h = map.len();
    let w = map[0].len();
    let mut g = dg_new();
    let mut ids: Vec<Vec<usize>> = Vec::new();
    let mut s: Option<usize> = None;
    let mut d: Option<usize> = None;
    let mut y: usize = 0;
    while y < h
        invariant
            rect(grid(map@)),
            h == grid(map@).len(),
            w == grid(map@)[0].len(),
            h * w < u32::MAX,
            ends_ok(grid(map@)),
            y <= h,
            dg_nodes(g) == all_nodes(grid(map@), y as int),
            dg_edges(g) == Seq::<(int, int, usize)>::empty(),
            ids@.len() == y,
            forall|k: int| 0 <= k < y ==> (#[trigger] ids@[k]@).len() == w,
            forall|k: int, x: int| 0 <= k < y && 0 <= x < w && tile_at(grid(map@), x, k) != Tile::Forest ==> #[trigger] ids@[k]@[x] == node_id(grid(map@), x, k),
            s == (if y == 0 { None } else if last_path(grid(map@), 0, w as int) >= 0 { Some(start_id(grid(map@)) as usize) } else { None }),
            y < h ==> d is None,
            y == h ==> d == Some(dest_id(grid(map@)) as usize),
        decreases h - y,
    {
        let mut row_ids: Vec<usize> = Vec::new();
        let mut x: usize = 0;
        while x < w
            invariant
                rect(grid(map@)),
                h == grid(map@).len(),
                w == grid(map@)[0].len(),
                h * w < u32::MAX,
                ends_ok(grid(map@)),
                y < h,
                x <= w,
                dg_nodes(g) == nodes_before(grid(map@), x as int, y as int),
                dg_edges(g) == Seq::<(int, int, usize)>::empty(),
                row_ids@.len() == x,
                forall|i: int| 0 <= i < x && tile_at(grid(map@), i, y as int) != Tile::Forest ==> #[trigger] row_ids@[i] == node_id(grid(map@), i, y as int),
                y == 0 ==> s == (if last_path(grid(map@), 0, x as int) >= 0 { Some(node_id(grid(map@), last_path(grid(map@), 0, x as int), 0) as usize) } else { None }),
                y > 0 ==> s == (if last_path(grid(map@), 0, w as int) >= 0 { Some(start_id(grid(map@)) as usize) } else { None }),
                (y == h - 1 && y > 0) ==> d == (if last_path(grid(map@), y as int, x as int) >= 0 { Some(node_id(grid(map@), last_path(grid(map@), y as int, x as int), y as int) as usize) } else { None }),
                !(y == h - 1 && y > 0) ==> d is None,
            decreases w - x,
        {
            let t = map[y][x];
            proof {
                lemma_row_nodes_len(grid(map@), y as int, x as int);
                lemma_all_nodes_len(grid(map@), y as int);
                assert(y * w + x < h * w) by (nonlinear_arith)
                    requires
                        y < h,
                        x < w;
                assert(y * w + x <= u32::MAX);
            }
            if t == Tile::Forest {
                row_ids.push(0);
            } else {
                let ghost before = dg_nodes(g);
                let id = dg_add_node(&mut g, Node { x, y, tile: t });
                assert(dg_nodes(g) =~= nodes_before(grid(map@), x + 1, y as int));
                row_ids.push(id);
                if y == 0 && t == Tile::Path {
                    s = Some(id);
                } else if y == h - 1 && t == Tile::Path {
                    d = Some(id);
                }
            }
            x += 1;
        }
        assert(nodes_before(grid(map@), w as int, y as int) =~= all_nodes(grid(map@), y + 1));
        ids.push(row_ids);
        y += 1;
    }
    assert(all_nodes(grid(map@), h as int) == grid_nodes(grid(map@)));
    proof {
        lemma_last_path(grid(map@), 0, w as int);
        lemma_last_path(grid(map@), h - 1, w as int);
        lemma_node_id_bound(grid(map@), last_path(grid(map@), 0, w as int), 0);
        lemma_node_id_bound(grid(map@), last_path(grid(map@), h - 1, w as int), h - 1);
        lemma_all_nodes_len(grid(map@), h as int);
        assert(grid_nodes(grid(map@)).len() <= h * w);
    }
    let s_id = s.unwrap();
    let d_id = d.unwrap();
    let ghost nodes = grid_nodes(grid(map@));
    proof {
        lemma_all_nodes_len(grid(map@), h as int);
        lemma_edges_of_len(grid(map@), nodes);
        let hh = h as int;
        let ww = w as int;
        assert(4 * (hh * ww) < 5 * hh * ww || hh * ww == 0) by (nonlinear_arith)
            requires
                hh >= 1,
                ww >= 1;
    }
    let mut y: usize = 0;
    assert(nodes_before(grid(map@), 0, 0) =~= Seq::<Node>::empty());
    while y < h
        invariant
            rect(grid(map@)),
            h == grid(map@).len(),
            w == grid(map@)[0].len(),
            h * w < u32::MAX,
            nodes == grid_nodes(grid(map@)),
            nodes.len() <= h * w,
            4 * nodes.len() < u32::MAX,
            y <= h,
            dg_nodes(g) == nodes,
            dg_edges(g) == edges_of(grid(map@), all_nodes(grid(map@), y as int)),
            ids@.len() == h,
            forall|k: int| 0 <= k < h ==> (#[trigger] ids@[k]@).len() == w,
            forall|k: int, x: int| 0 <= k < h && 0 <= x < w && tile_at(grid(map@), x, k) != Tile::Forest ==> #[trigger] ids@[k]@[x] == node_id(grid(map@), x, k),
        decreases h - y,
    {
        let mut x: usize = 0;
        assert(nodes_before(grid(map@), 0, y as int) =~= all_nodes(grid(map@), y as int));
        while x < w
            invariant
                rect(grid(map@)),
                h == grid(map@).len(),
                w == grid(map@)[0].len(),
                h * w < u32::MAX,
                nodes == grid_nodes(grid(map@)),
                nodes.len() <= h * w,
                4 * nodes.len() < u32::MAX,
            4 * nodes.len() < u32::MAX,
                y < h,
                x <= w,
                dg_nodes(g) == nodes,
                dg_edges(g) == edges_of(grid(map@), nodes_before(grid(map@), x as int, y as int)),
                ids@.len() == h,
                forall|k: int| 0 <= k < h ==> (#[trigger] ids@[k]@).len() == w,
                forall|k: int, x: int| 0 <= k < h && 0 <= x < w && tile_at(grid(map@), x, k) != Tile::Forest ==> #[trigger] ids@[k]@[x] == node_id(grid(map@), x, k),
            decreases w - x,
        {
            let t = map[y][x];
            if t != Tile::Forest {
                let node = Node { x, y, tile: t };
                let ns = neighbours(&node, map);
                let from = ids[y][x];
                proof {
                    lemma_node_id_bound(grid(map@), x as int, y as int);
                    lemma_edges_of_len(grid(map@), nodes_before(grid(map@), x as int, y as int));
                    assert(nbrs(grid(map@), node).len() <= 4);
                }
                let ghost prefix = edges_of(grid(map@), nodes_before(grid(map@), x as int, y as int));
                let mut j: usize = 0;
                while j < ns.len()
                    invariant
                        rect(grid(map@)),
                        h == grid(map@).len(),
                        w == grid(map@)[0].len(),
                        h * w < u32::MAX,
                        nodes == grid_nodes(grid(map@)),
                        nodes.len() <= h * w,
                        4 * nodes.len() < u32::MAX,
                4 * nodes.len() < u32::MAX,
            4 * nodes.len() < u32::MAX,
                        x < w,
                        y < h,
                        j <= ns@.len(),
                        ns@ == nbrs(grid(map@), node),
                        node == (Node { x, y, tile: t }),
                        from == node_id(grid(map@), x as int, y as int),
                        from < nodes.len(),
                        dg_nodes(g) == nodes,
                        prefix.len() + ns@.len() <= 4 * nodes.len(),
                        dg_edges(g) == prefix + node_edges(grid(map@), node).take(j as int),
                        ids@.len() == h,
                        forall|k: int| 0 <= k < h ==> (#[trigger] ids@[k]@).len() == w,
                        forall|k: int, x: int| 0 <= k < h && 0 <= x < w && tile_at(grid(map@), x, k) != Tile::Forest ==> #[trigger] ids@[k]@[x] == node_id(grid(map@), x, k),
                    decreases ns@.len() - j,
                {
                    let n = ns[j];
                    assert(step_ok(grid(map@), node, n.x as int, n.y as int));
                    let to = ids[n.y][n.x];
                    proof { lemma_node_id_bound(grid(map@), n.x as int, n.y as int); }
                    dg_add_edge(&mut g, from, to, 1);
                    assert(node_edges(grid(map@), node).take(j + 1) =~= node_edges(grid(map@), node).take(j as int).push((from as int, to as int, 1usize)));
                    j += 1;
                }
                assert(node_edges(grid(map@), node).take(j as int) =~= node_edges(grid(map@), node));
                assert(nodes_before(grid(map@), x + 1, y as int) =~= nodes_before(grid(map@), x as int, y as int).push(node));
                assert(nodes_before(grid(map@), x + 1, y as int).drop_last() =~= nodes_before(grid(map@), x as int, y as int));
            } else {
                assert(nodes_before(grid(map@), x + 1, y as int) =~= nodes_before(grid(map@), x as int, y as int));
            }
            x += 1;
        }
        assert(nodes_before(grid(map@), w as int, y as int) =~= all_nodes(grid(map@), y + 1));
        y += 1;
    }
    (g, s_id, d_id)
}


/// A hike in the trail graph of `map`: a simple path from the start to the
/// destination, taking slopes only downhill.
pub open spec fn hike(map: Seq<Seq<Tile>>, p: Seq<usize>) -> bool {
    simple_path(directed_adj(grid_edges(map)), grid_nodes(map).len() as int, start_id(map), dest_id(map), p)
}

/// The longest of the paths `ps`, by node count; the index of one.
fn longest(ps: &Vec<Vec<usize>>) -> (res: usize)
    requires
        ps@.len() > 0,
    ensures
        res < ps@.len(),
        forall|i: int| 0 <= i < ps@.len() ==> (#[trigger] ps@[i])@.len() <= ps@[res as int]@.len(),
{
    let mut best: usize = 0;
    let mut i: usize = 1;
    while i < ps.len()
        invariant
            1 <= i <= ps@.len(),
            best < i,
            forall|k: int| 0 <= k < i ==> (#[trigger] ps@[k])@.len() <= ps@[best as int]@.len(),
        decreases ps@.len() - i,
    {
        if ps[i].len() > ps[best].len() {
            best = i;
        }
        i += 1;
    }
    best
}

/// The number of steps of the longest hike.
pub fn part1(input: &[Vec<Tile>]) -> (res: usize)
    requires
        rect(grid(input@)),
        ends_ok(grid(input@)),
        exists|p: Seq<usize>| hike(grid(input@), p),
    ensures
        exists|p: Seq<usize>| hike(grid(input@), p) && p.len() - 1 == res,
        forall|p: Seq<usize>| hike(grid(input@), p) ==> p.len() - 1 <= res,
{
    let (g, s, d) = build_graph(input);
    proof {
        let w = grid(input@)[0].len() as int;
        let h = grid(input@).len() as int;
        lemma_last_path(grid(input@), 0, w);
        lemma_last_path(grid(input@), h - 1, w);
        lemma_node_id_bound(grid(input@), last_path(grid(input@), 0, w), 0);
        lemma_node_id_bound(grid(input@), last_path(grid(input@), h - 1, w), h - 1);
        lemma_ids_differ(grid(input@), last_path(grid(input@), 0, w), last_path(grid(input@), h - 1, w), h - 1);
    }
    let paths = dg_simple_paths(&g, s, d);
    let ghost p0 = choose|p: Seq<usize>| hike(grid(input@), p);
    assert(exists|i: int| 0 <= i < paths@.len() && (#[trigger] paths@[i])@ == p0);
    let b = longest(&paths);
    assert(hike(grid(input@), paths@[b as int]@));
    proof {
        assert forall|p: Seq<usize>| hike(grid(input@), p) implies p.len() - 1 <= paths@[b as int]@.len() - 1 by {
            let i = choose|i: int| 0 <= i < paths@.len() && (#[trigger] paths@[i])@ == p;
            assert(paths@[i]@.len() <= paths@[b as int]@.len());
        }
    }
    paths[b].len() - 1
}


/// The nodes of a corridor graph, in the order they were added.
pub uninterp spec fn ug_nodes(g: UnGraph<Node, usize>) -> Seq<Node>;

/// The edges of a corridor graph, in the order they were added: the two
/// ends and the weight.
pub uninterp spec fn ug_edges(g: UnGraph<Node, usize>) -> Seq<(int, int, usize)>;

/// `Graph::new_undirected`: a graph without nodes or edges.
#[verifier::external_body]
fn ug_new() -> (g: UnGraph<Node, usize>)
    ensures
        ug_nodes(g) == Seq::<Node>::empty(),
        ug_edges(g) == Seq::<(int, int, usize)>::empty(),
{
    UnGraph::new_undirected()
}

/// `Graph::add_node` on a corridor graph (see `dg_add_node`).
#[verifier::external_body]
fn ug_add_node(g: &mut UnGraph<Node, usize>, n: Node) -> (id: usize)
    requires
        ug_nodes(*old(g)).len() < u32::MAX,
    ensures
        id == ug_nodes(*old(g)).len(),
        ug_nodes(*final(g)) == ug_nodes(*old(g)).push(n),
        ug_edges(*final(g)) == ug_edges(*old(g)),
{
    g.add_node(n).index()
}

/// `Graph::add_edge` on a corridor graph (see `dg_add_edge`).
#[verifier::external_body]
fn ug_add_edge(g: &mut UnGraph<Node, usize>, a: usize, b: usize, w: usize)
    requires
        a < ug_nodes(*old(g)).len(),
        b < ug_nodes(*old(g)).len(),
        ug_edges(*old(g)).len() < u32::MAX,
    ensures
        ug_nodes(*final(g)) == ug_nodes(*old(g)),
        ug_edges(*final(g)) == ug_edges(*old(g)).push((a as int, b as int, w)),
{
    g.add_edge(NodeIndex::new(a), NodeIndex::new(b), w);
}

/// The edge `e` joins `a` and `b`, either way round.
pub open spec fn joins(e: (int, int, usize), a: int, b: int) -> bool {
    (e.0 == a && e.1 == b) || (e.0 == b && e.1 == a)
}

/// Some edge joins `a` and `b`.
pub open spec fn undirected_adj(edges: Seq<(int, int, usize)>) -> spec_fn(int, int) -> bool {
    |a: int, b: int| exists|i: int| 0 <= i < edges.len() && joins(#[trigger] edges[i], a, b)
}

/// `Graph::find_edge(a, b).is_some()` on an undirected graph: whether an
/// edge joins `a` and `b`, either way round.
#[verifier::external_body]
fn ug_has_edge(g: &UnGraph<Node, usize>, a: usize, b: usize) -> (res: bool)
    requires
        a < ug_nodes(*g).len(),
        b < ug_nodes(*g).len(),
    ensures
        res == undirected_adj(ug_edges(*g))(a as int, b as int),
{
    g.find_edge(NodeIndex::new(a), NodeIndex::new(b)).is_some()
}

/// `petgraph::algo::all_simple_paths` on a corridor graph, collected: the
/// paths it yields are exactly the simple paths from `s` to `d`, each step
/// along an edge either way round.
#[verifier::external_body]
fn ug_simple_paths(g: &UnGraph<Node, usize>, s: usize, d: usize) -> (res: Vec<Vec<usize>>)
    requires
        s < ug_nodes(*g).len(),
        d < ug_nodes(*g).len(),
        s != d,
    ensures
        forall|p: Seq<usize>| (exists|i: int| 0 <= i < res@.len() && (#[trigger] res@[i])@ == p) <==> simple_path(
            undirected_adj(ug_edges(*g)),
            ug_nodes(*g).len() as int,
            s as int,
            d as int,
            p,
        ),
{
    petgraph::algo::all_simple_paths::<Vec<NodeIndex>, _>(g, NodeIndex::new(s), NodeIndex::new(d), 0, None)
        .map(|p: Vec<NodeIndex>| p.into_iter().map(|n: NodeIndex| n.index()).collect())
        .collect()
}

/// Some edge that joins `a` and `b` has weight `w`.
pub open spec fn carries(edges: Seq<(int, int, usize)>, a: int, b: int, w: usize) -> bool {
    exists|i: int| 0 <= i < edges.len() && joins(#[trigger] edges[i], a, b) && edges[i].2 == w
}

/// `Graph::edges_connecting(a, b).next().unwrap().weight()` on an
/// undirected graph: the weight of an edge that joins `a` and `b`.
#[verifier::external_body]
fn ug_edge_weight(g: &UnGraph<Node, usize>, a: usize, b: usize) -> (res: usize)
    requires
        undirected_adj(ug_edges(*g))(a as int, b as int),
    ensures
        carries(ug_edges(*g), a as int, b as int, res),
{
    *g.edges_connecting(NodeIndex::new(a), NodeIndex::new(b)).next().unwrap().weight()
}

/// `s` without the node `x`.
pub open spec fn without(s: Seq<Node>, x: Node) -> Seq<Node>
    decreases s.len(),
{
    if s.len() == 0 {
        Seq::empty()
    } else if s.last() == x {
        without(s.drop_last(), x)
    } else {
        without(s.drop_last(), x).push(s.last())
    }
}

/// An index of `n` in `s`, or `s.len()`.
pub open spec fn index_of(s: Seq<Node>, n: Node) -> int {
    if s.contains(n) {
        choose|i: int| 0 <= i < s.len() && s[i] == n
    } else {
        s.len() as int
    }
}

/// No node occurs twice.
pub open spec fn distinct(s: Seq<Node>) -> bool {
    forall|i: int, j: int| 0 <= i < j < s.len() ==> s[i] != s[j]
}

/// The node list with `n` in it, and `n`'s index.
pub open spec fn intern(s: Seq<Node>, n: Node) -> (Seq<Node>, int) {
    if index_of(s, n) < s.len() { (s, index_of(s, n)) } else { (s.push(n), s.len() as int) }
}

/// The state of the corridor search: the pending steps `(from, to)`, the
/// tiles whose corridor has been followed, the graph so far, and the
/// corridor being walked, if any (its hub, last two tiles and length).
pub struct Search {
    pub queue: Seq<(Node, Node)>,
    pub visited: Seq<Node>,
    pub nodes: Seq<Node>,
    pub edges: Seq<(int, int, usize)>,
    pub walk: Option<(Node, Node, Node, int)>,
}

/// The destination tile of `map`: the last path tile of its bottom row.
pub open spec fn dest_node(map: Seq<Seq<Tile>>) -> Node {
    let x = last_path(map, map.len() - 1, map[0].len() as int);
    Node { x: x as usize, y: (map.len() - 1) as usize, tile: Tile::Path }
}

pub open spec fn start_node(map: Seq<Seq<Tile>>) -> Node {
    let x = last_path(map, 0, map[0].len() as int);
    Node { x: x as usize, y: 0, tile: Tile::Path }
}

/// The corridor search, at most `k` steps on from `st`. A pending step
/// whose tile was followed already is dropped; else its corridor is walked
/// tile by tile while exactly one way leads on (not back) and that way is
/// not the destination. Where the walk stops, an edge from its hub to the
/// tile reached is added, unless the two are joined already, and a step to
/// each way on is queued. The result is the graph's nodes and edges.
pub open spec fn search(map: Seq<Seq<Tile>>, st: Search, k: nat) -> Option<(Seq<Node>, Seq<(int, int, usize)>)>
    decreases k,
{
    if k == 0 {
        None
    } else {
        match st.walk {
            None => {
                if st.queue.len() == 0 {
                    Some((st.nodes, st.edges))
                } else {
                    let (from, to) = st.queue[0];
                    let rest = st.queue.drop_first();
                    if st.visited.contains(to) {
                        search(map, Search { queue: rest, ..st }, (k - 1) as nat)
                    } else {
                        search(map, Search { queue: rest, visited: st.visited.push(to), walk: Some((from, from, to, 1int)), ..st }, (k - 1) as nat)
                    }
                }
            },
            Some((hub, cf, ct, w)) => {
                let succs = without(nbrs(map, ct), cf);
                if succs.len() == 1 && succs[0] != dest_node(map) {
                    search(map, Search { walk: Some((hub, ct, succs[0], w + 1)), ..st }, (k - 1) as nat)
                } else {
                    let (n1, hid) = intern(st.nodes, hub);
                    let (n2, tid) = intern(n1, ct);
                    let e2 = if undirected_adj(st.edges)(hid, tid) { st.edges } else { st.edges.push((hid, tid, w as usize)) };
                    let q2 = st.queue + succs.map_values(|e: Node| (ct, e));
                    search(map, Search { queue: q2, nodes: n2, edges: e2, walk: None, ..st }, (k - 1) as nat)
                }
            },
        }
    }
}

/// The search's first state: the start and destination as nodes 0 and 1, a
/// step from the start to each of its neighbours pending.
pub open spec fn search_start(map: Seq<Seq<Tile>>) -> Search {
    Search {
        queue: nbrs(map, start_node(map)).map_values(|e: Node| (start_node(map), e)),
        visited: Seq::empty(),
        nodes: seq![start_node(map), dest_node(map)],
        edges: Seq::empty(),
        walk: None,
    }
}

/// The most steps the corridor search takes: 2^28, which keeps the graph's
/// node and edge counts within its `u32` indices and the corridor lengths
/// within a `usize`.
pub open spec fn search_limit() -> nat {
    0x1000_0000
}


fn contains_node(v: &Vec<Node>, n: Node) -> (res: bool)
    ensures
        res == v@.contains(n),
{
    let mut i: usize = 0;
    while i < v.len()
        invariant
            i <= v@.len(),
            forall|j: int| 0 <= j < i ==> v@[j] != n,
        decreases v@.len() - i,
    {
        if v[i] == n {
            return true;
        }
        i += 1;
    }
    false
}

/// The node `n`'s number in the graph, added where it has none.
#[verifier::loop_isolation(false)]
fn intern_node(g: &mut UnGraph<Node, usize>, ids: &mut Vec<Node>, n: Node) -> (id: usize)
    requires
        ug_nodes(*old(g)) == old(ids)@,
        distinct(old(ids)@),
        old(ids)@.len() < u32::MAX,
    ensures
        ug_nodes(*final(g)) == final(ids)@,
        ug_edges(*final(g)) == ug_edges(*old(g)),
        distinct(final(ids)@),
        (final(ids)@, id as int) == intern(old(ids)@, n),
{
    let mut i: usize = 0;
    while i < ids.len()
        invariant
            i <= ids@.len(),
            forall|j: int| 0 <= j < i ==> ids@[j] != n,
        decreases ids@.len() - i,
    {
        if ids[i] == n {
            proof {
                assert(ids@.contains(n));
                let c = choose|c: int| 0 <= c < ids@.len() && ids@[c] == n;
                assert(c == i) by {
                    if c != i {
                        if c < i {
                            assert(ids@[c] != n);
                        } else {
                            assert(ids@[i as int] != ids@[c]);
                        }
                    }
                }
            }
            return i;
        }
        i += 1;
    }
    let id = ug_add_node(g, n);
    let ghost before = ids@;
    ids.push(n);
    proof {
        assert(!before.contains(n));
        assert forall|a: int, b: int| 0 <= a < b < ids@.len() implies ids@[a] != ids@[b] by {
            if b == before.len() {
                assert(ids@[a] == before[a]);
            }
        }
    }
    id
}

/// `ns` without the node `x` (see `without`).
fn drop_node(ns: &Vec<Node>, x: Node) -> (res: Vec<Node>)
    ensures
        res@ == without(ns@, x),
{
    let mut out: Vec<Node> = Vec::new();
    let mut j: usize = 0;
    while j < ns.len()
        invariant
            j <= ns@.len(),
            out@ == without(ns@.take(j as int), x),
        decreases ns@.len() - j,
    {
        assert(ns@.take(j + 1).drop_last() =~= ns@.take(j as int));
        if ns[j] != x {
            out.push(ns[j]);
        }
        j += 1;
    }
    assert(ns@.take(j as int) =~= ns@);
    out
}

pub proof fn lemma_without(s: Seq<Node>, x: Node)
    ensures
        without(s, x).len() <= s.len(),
        forall|i: int| 0 <= i < without(s, x).len() ==> s.contains(#[trigger] without(s, x)[i]),
    decreases s.len(),
{
    if s.len() > 0 {
        lemma_without(s.drop_last(), x);
        assert forall|i: int| 0 <= i < without(s, x).len() implies s.contains(#[trigger] without(s, x)[i]) by {
            if i < without(s.drop_last(), x).len() {
                let c = choose|c: int| 0 <= c < s.drop_last().len() && s.drop_last()[c] == without(s.drop_last(), x)[i];
                assert(s[c] == without(s, x)[i]);
            } else {
                assert(s[s.len() - 1] == without(s, x)[i]);
            }
        }
    }
}

/// The tiles next to a walkable tile lie inside the map.
pub proof fn lemma_nbrs_in(map: Seq<Seq<Tile>>, t: Node)
    ensures
        forall|i: int| 0 <= i < nbrs(map, t).len() ==> (#[trigger] nbrs(map, t)[i]).x < map[0].len()
            && nbrs(map, t)[i].y < map.len(),
        nbrs(map, t).len() <= 4,
{
}

pub open spec fn node_in(map: Seq<Seq<Tile>>, n: Node) -> bool {
    n.x < map[0].len() && n.y < map.len()
}

/// Builds the corridor graph (see `search`): its nodes and edges are what
/// the search gives; the start is node 0 and the destination node 1.
/// `None` where the search has not ended within `search_limit()` steps (on
/// some maps a corridor walk circles forever).
pub fn build_graph2(map: &[Vec<Tile>]) -> (res: Option<(UnGraph<Node, usize>, usize, usize)>)
    requires
        rect(grid(map@)),
        ends_ok(grid(map@)),
    ensures
        res is None <==> search(grid(map@), search_start(grid(map@)), search_limit()) is None,
        res is Some ==> search(grid(map@), search_start(grid(map@)), search_limit()) == Some((ug_nodes(res.unwrap().0), ug_edges(res.unwrap().0))),
        res is Some ==> edges_walked(grid(map@), ug_nodes(res.unwrap().0), ug_edges(res.unwrap().0)),
        res is Some ==> nodes_kept(grid(map@), seq![start_node(grid(map@)), dest_node(grid(map@))], ug_nodes(res.unwrap().0)),
        res is Some ==> res.unwrap().1 == 0 && res.unwrap().2 == 1,
{
    proof { lemma_rect_dims(grid(map@)); }
    let ghost fuel = search_limit();
    let ghost result = search(grid(map@), search_start(grid(map@)), fuel);
    let h = map.len();
    let w = map[0].len();
    let mut sx: usize = 0;
    let mut dx: usize = 0;
    let mut x: usize = 0;
    while x < w
        invariant
            rect(grid(map@)),
            h == grid(map@).len(),
            w == grid(map@)[0].len(),
            h >= 2,
            x <= w,
            last_path(grid(map@), 0, x as int) >= 0 ==> sx == last_path(grid(map@), 0, x as int),
            last_path(grid(map@), h - 1, x as int) >= 0 ==> dx == last_path(grid(map@), h - 1, x as int),
        decreases w - x,
    {
        if map[0][x] == Tile::Path {
            sx = x;
        }
        if map[h - 1][x] == Tile::Path {
            dx = x;
        }
        x += 1;
    }
    let s = Node { x: sx, y: 0, tile: Tile::Path };
    let d = Node { x: dx, y: h - 1, tile: Tile::Path };
    proof {
        lemma_last_path(grid(map@), 0, w as int);
        lemma_last_path(grid(map@), h - 1, w as int);
    }
    assert(s == start_node(grid(map@)) && d == dest_node(grid(map@)));
    let mut g = ug_new();
    let mut ids: Vec<Node> = Vec::new();
    let s_id = ug_add_node(&mut g, s);
    ids.push(s);
    let d_id = ug_add_node(&mut g, d);
    ids.push(d);
    let mut queue: VecDeque<(Node, Node)> = VecDeque::new();
    let first = neighbours(&s, map);
    let mut i: usize = 0;
    while i < first.len()
        invariant
            i <= first@.len(),
            first@ == nbrs(grid(map@), s),
            queue@ == first@.take(i as int).map_values(|e: Node| (s, e)),
        decreases first@.len() - i,
    {
        queue.push_back((s, first[i]));
        assert(first@.take(i + 1).map_values(|e: Node| (s, e)) =~= first@.take(i as int).map_values(|e: Node| (s, e)).push((s, first@[i as int])));
        i += 1;
    }
    assert(first@.take(i as int) =~= first@);
    let mut visited: Vec<Node> = Vec::new();
    let ghost mut k: nat = fuel;
    let mut kk: usize = 0x1000_0000;
    proof {
        lemma_nbrs_in(grid(map@), s);
        assert(ids@ =~= seq![s, d]);
        assert(Search { queue: queue@, visited: visited@, nodes: ids@, edges: ug_edges(g), walk: None } == search_start(grid(map@)));
        let st0 = search_start(grid(map@));
        assert forall|i: int| 0 <= i < st0.queue.len() implies nbrs(grid(map@), (#[trigger] st0.queue[i]).0).contains(st0.queue[i].1) by {
            assert(st0.queue[i] == (s, first@[i]));
            assert(nbrs(grid(map@), s)[i] == first@[i]);
        }
        lemma_search_walks(grid(map@), st0, fuel);
    }
    let mut done = false;
    while !done
        invariant
            rect(grid(map@)),
            h == grid(map@).len(),
            w == grid(map@)[0].len(),
            d == dest_node(grid(map@)),
            fuel == 0x1000_0000,
            k <= fuel,
            kk == k,
            result == search(grid(map@), search_start(grid(map@)), search_limit()),
            ug_nodes(g) == ids@,
            distinct(ids@),
            ids@.len() <= 2 + 2 * (fuel - k),
            ug_edges(g).len() <= fuel - k,
            forall|j: int| 0 <= j < queue@.len() ==> node_in(grid(map@), (#[trigger] queue@[j]).1),
            !done ==> search(grid(map@), Search { queue: queue@, visited: visited@, nodes: ids@, edges: ug_edges(g), walk: None }, k) == result,
            done ==> result == Some((ids@, ug_edges(g))),
        decreases k, (if done { 0int } else { 1int }),
    {
        if kk == 0 {
            assert(search(grid(map@), Search { queue: queue@, visited: visited@, nodes: ids@, edges: ug_edges(g), walk: None }, k) is None);
            assert(result is None);
            return None;
        }
        let ghost st = Search { queue: queue@, visited: visited@, nodes: ids@, edges: ug_edges(g), walk: None };
        let ghost k0 = k;
        let item = queue.pop_front();
        match item {
            None => {
                done = true;
            },
            Some((from, to)) => {
                assert(node_in(grid(map@), to)) by {
                    assert(node_in(grid(map@), st.queue[0].1));
                }
                if contains_node(&visited, to) {
                    proof { k = (k - 1) as nat; }
                    kk -= 1;
                } else {
                    visited.push(to);
                    proof { k = (k - 1) as nat; }
                    kk -= 1;
                    let mut cur_from = from;
                    let mut cur_to = to;
                    let mut cur_w: usize = 1;
                    let hub = from;
                    let mut walking = true;
                    while walking
                        invariant
                            rect(grid(map@)),
                            h == grid(map@).len(),
                            w == grid(map@)[0].len(),
                            d == dest_node(grid(map@)),
                            fuel == 0x1000_0000,
                            kk == k,
                            result == search(grid(map@), search_start(grid(map@)), search_limit()),
                            k < k0,
                            k0 <= fuel,
                            ug_nodes(g) == ids@,
                            distinct(ids@),
                            ids@.len() <= 2 + 2 * (fuel - k),
                            walking ==> ug_edges(g).len() + 1 <= fuel - k,
                            !walking ==> ug_edges(g).len() <= fuel - k,
                            cur_w <= fuel - k,
                            node_in(grid(map@), cur_to),
                            forall|j: int| 0 <= j < queue@.len() ==> node_in(grid(map@), (#[trigger] queue@[j]).1),
                            walking ==> search(grid(map@), Search { queue: queue@, visited: visited@, nodes: ids@, edges: ug_edges(g), walk: Some((hub, cur_from, cur_to, cur_w as int)) }, k) == result,
                            !walking ==> search(grid(map@), Search { queue: queue@, visited: visited@, nodes: ids@, edges: ug_edges(g), walk: None }, k) == result,
                        decreases k, (if walking { 1int } else { 0int }),
                    {
                        if kk == 0 {
                            assert(search(grid(map@), Search { queue: queue@, visited: visited@, nodes: ids@, edges: ug_edges(g), walk: Some((hub, cur_from, cur_to, cur_w as int)) }, k) is None);
                            assert(result is None);
                            return None;
                        }
                        let ns = neighbours(&cur_to, map);
                        let succs = drop_node(&ns, cur_from);
                        proof {
                            lemma_without(ns@, cur_from);
                            lemma_nbrs_in(grid(map@), cur_to);
                        }
                        if succs.len() == 1 && succs[0] != d {
                            proof {
                                let c = choose|c: int| 0 <= c < ns@.len() && ns@[c] == succs@[0];
                                assert(node_in(grid(map@), ns@[c]));
                                k = (k - 1) as nat;
                            }
                            kk -= 1;
                            cur_from = cur_to;
                            cur_to = succs[0];
                            cur_w += 1;
                        } else {
                            let ghost e0 = ug_edges(g);
                            let ghost n0 = ids@;
                            let hub_id = intern_node(&mut g, &mut ids, hub);
                            let to_id = intern_node(&mut g, &mut ids, cur_to);
                            proof {
                                let (n1, h1) = intern(n0, hub);
                                assert(n1.len() <= n0.len() + 1);
                                assert(ids@.len() <= n1.len() + 1);
                                assert(hub_id < ids@.len() && to_id < ids@.len());
                            }
                            if !ug_has_edge(&g, hub_id, to_id) {
                                ug_add_edge(&mut g, hub_id, to_id, cur_w);
                            }
                            let ghost q0 = queue@;
                            let mut j: usize = 0;
                            while j < succs.len()
                                invariant
                                    j <= succs@.len(),
                                    queue@ == q0 + succs@.take(j as int).map_values(|e: Node| (cur_to, e)),
                                    forall|a: int| 0 <= a < succs@.len() ==> ns@.contains(#[trigger] succs@[a]),
                                    forall|a: int| 0 <= a < ns@.len() ==> node_in(grid(map@), #[trigger] ns@[a]),
                                    forall|a: int| 0 <= a < q0.len() ==> node_in(grid(map@), (#[trigger] q0[a]).1),
                                    forall|a: int| 0 <= a < queue@.len() ==> node_in(grid(map@), (#[trigger] queue@[a]).1),
                                decreases succs@.len() - j,
                            {
                                proof {
                                    assert(ns@.contains(succs@[j as int]));
                                    let c = choose|c: int| 0 <= c < ns@.len() && ns@[c] == succs@[j as int];
                                    assert(node_in(grid(map@), ns@[c]));
                                }
                                queue.push_back((cur_to, succs[j]));
                                assert(succs@.take(j + 1).map_values(|e: Node| (cur_to, e)) =~= succs@.take(j as int).map_values(|e: Node| (cur_to, e)).push((cur_to, succs@[j as int])));
                                j += 1;
                            }
                            assert(succs@.take(j as int) =~= succs@);
                            proof { k = (k - 1) as nat; }
                            kk -= 1;
                            walking = false;
                        }
                    }
                }
            },
        }
    }
    Some((g, s_id, d_id))
}


/// `p` walks over the map: each tile is one step on from the tile before.
pub open spec fn walk(map: Seq<Seq<Tile>>, p: Seq<Node>) -> bool {
    forall|i: int| 0 <= i < p.len() - 1 ==> nbrs(map, #[trigger] p[i]).contains(p[i + 1])
}

/// A walk of `w` steps leads from `a` to `b`, its last step from `before`.
pub open spec fn walked_via(map: Seq<Seq<Tile>>, a: Node, before: Node, b: Node, w: int) -> bool {
    exists|p: Seq<Node>| #![trigger walk(map, p)] p.len() == w + 1 && p[0] == a && p[w - 1] == before && p[w] == b && walk(map, p)
}

/// A walk of `w` steps leads from `a` to `b`.
pub open spec fn walked(map: Seq<Seq<Tile>>, a: Node, b: Node, w: int) -> bool {
    exists|p: Seq<Node>| #![trigger walk(map, p)] p.len() == w + 1 && p[0] == a && p[w] == b && walk(map, p)
}

/// Every edge joins two of the nodes, and a walk over the map as long as
/// its weight leads from the one to the other.
pub open spec fn edges_walked(map: Seq<Seq<Tile>>, nodes: Seq<Node>, edges: Seq<(int, int, usize)>) -> bool {
    forall|i: int| 0 <= i < edges.len() ==> 0 <= (#[trigger] edges[i]).0 < nodes.len() && 0 <= edges[i].1 < nodes.len()
        && walked(map, nodes[edges[i].0], nodes[edges[i].1], edges[i].2 as int)
}

/// The tile `n` lies on the map, is no forest, and carries the map's tile.
pub open spec fn open_tile(map: Seq<Seq<Tile>>, n: Node) -> bool {
    &&& n.y < map.len()
    &&& n.x < map[0].len()
    &&& tile_at(map, n.x as int, n.y as int) != Tile::Forest
    &&& n.tile == tile_at(map, n.x as int, n.y as int)
}

/// `a` and `b` are open tiles side by side, in a row or in a column.
pub open spec fn side_by_side(map: Seq<Seq<Tile>>, a: Node, b: Node) -> bool {
    &&& open_tile(map, a)
    &&& open_tile(map, b)
    &&& (a.x == b.x && (a.y + 1 == b.y || b.y + 1 == a.y)) || (a.y == b.y && (a.x + 1 == b.x || b.x + 1 == a.x))
}

/// `p` is a trail over the map's open tiles, any way round: each tile is
/// side by side with the one before.
pub open spec fn trail(map: Seq<Seq<Tile>>, p: Seq<Node>) -> bool {
    forall|i: int| 0 <= i < p.len() - 1 ==> #[trigger] side_by_side(map, p[i], p[i + 1])
}

/// A trail of `w` steps over the map's open tiles leads from `a` to `b`.
pub open spec fn trail_len(map: Seq<Seq<Tile>>, a: Node, b: Node, w: int) -> bool {
    exists|p: Seq<Node>| #![trigger trail(map, p)] p.len() == w + 1 && p[0] == a && p[w] == b && trail(map, p)
}

/// What the corridor search keeps: its edges are walked, its nodes and the
/// tiles that pending steps leave from are open, every pending step is a
/// step of the map, and the corridor being walked is a walk from an open
/// hub; `k` steps remain, and its length stays below 2^28.
pub open spec fn search_inv(map: Seq<Seq<Tile>>, st: Search, k: nat) -> bool {
    &&& edges_walked(map, st.nodes, st.edges)
    &&& forall|j: int| 0 <= j < st.nodes.len() ==> open_tile(map, #[trigger] st.nodes[j])
    &&& forall|i: int| 0 <= i < st.queue.len() ==> nbrs(map, (#[trigger] st.queue[i]).0).contains(st.queue[i].1)
    &&& forall|i: int| 0 <= i < st.queue.len() ==> open_tile(map, (#[trigger] st.queue[i]).0)
    &&& k <= 0x1000_0000
    &&& map.len() <= usize::MAX
    &&& map[0].len() <= usize::MAX
    &&& match st.walk {
        Some((hub, cf, ct, w)) => 1 <= w && w + k <= 0x1000_0000 && walked_via(map, hub, cf, ct, w) && open_tile(map, hub),
        None => true,
    }
}

/// A tile that can be stepped to is open and next to the tile left.
pub proof fn lemma_nbrs_step(map: Seq<Seq<Tile>>, t: Node, u: Node)
    requires
        nbrs(map, t).contains(u),
        map.len() <= usize::MAX,
        map[0].len() <= usize::MAX,
    ensures
        open_tile(map, u),
        (t.x == u.x && (t.y + 1 == u.y || u.y + 1 == t.y)) || (t.y == u.y && (t.x + 1 == u.x || u.x + 1 == t.x)),
{
    let s1 = step_seq(map, t, t.x as int, t.y - 1);
    let s2 = step_seq(map, t, t.x as int, t.y + 1);
    let s3 = step_seq(map, t, t.x - 1, t.y as int);
    let s4 = step_seq(map, t, t.x + 1, t.y as int);
    let c = choose|c: int| 0 <= c < nbrs(map, t).len() && nbrs(map, t)[c] == u;
    assert(nbrs(map, t) == s1 + s2 + s3 + s4);
    assert(s1.len() <= 1 && s2.len() <= 1 && s3.len() <= 1 && s4.len() <= 1);
    if c < s1.len() {
        assert(u == s1[c]);
        assert(step_ok(map, t, t.x as int, t.y - 1));
    } else if c < s1.len() + s2.len() {
        assert(u == s2[c - s1.len()]);
        assert(step_ok(map, t, t.x as int, t.y + 1));
    } else if c < s1.len() + s2.len() + s3.len() {
        assert(u == s3[c - s1.len() - s2.len()]);
        assert(step_ok(map, t, t.x - 1, t.y as int));
    } else {
        assert(u == s4[c - s1.len() - s2.len() - s3.len()]);
        assert(step_ok(map, t, t.x + 1, t.y as int));
    }
}

/// A walk from an open tile is a trail.
pub proof fn lemma_walk_trail(map: Seq<Seq<Tile>>, p: Seq<Node>)
    requires
        walk(map, p),
        p.len() >= 1,
        open_tile(map, p[0]),
        map.len() <= usize::MAX,
        map[0].len() <= usize::MAX,
    ensures
        trail(map, p),
{
    assert forall|i: int| 0 <= i < p.len() - 1 implies #[trigger] side_by_side(map, p[i], p[i + 1]) by {
        assert(nbrs(map, p[i]).contains(p[i + 1]));
        lemma_nbrs_step(map, p[i], p[i + 1]);
        if i > 0 {
            assert(nbrs(map, p[i - 1]).contains(p[i - 1 + 1]));
            lemma_nbrs_step(map, p[i - 1], p[i]);
        }
    }
}

/// A trail read backwards is a trail.
pub proof fn lemma_trail_back(map: Seq<Seq<Tile>>, a: Node, b: Node, w: int)
    requires
        trail_len(map, a, b, w),
        w >= 0,
    ensures
        trail_len(map, b, a, w),
{
    let p = choose|p: Seq<Node>| #![trigger trail(map, p)] p.len() == w + 1 && p[0] == a && p[w] == b && trail(map, p);
    let r = p.reverse();
    assert forall|i: int| 0 <= i < r.len() - 1 implies #[trigger] side_by_side(map, r[i], r[i + 1]) by {
        let j = w - 1 - i;
        assert(side_by_side(map, p[j], p[j + 1]));
        assert(r[i] == p[j + 1] && r[i + 1] == p[j]);
    }
    assert(trail(map, r));
    assert(r.len() == w + 1 && r[0] == b && r[w] == a);
}

/// Two trails, one leading on from where the other ends, make one trail.
pub proof fn lemma_trail_join(map: Seq<Seq<Tile>>, a: Node, b: Node, c: Node, w1: int, w2: int)
    requires
        trail_len(map, a, b, w1),
        trail_len(map, b, c, w2),
        w1 >= 0,
        w2 >= 0,
    ensures
        trail_len(map, a, c, w1 + w2),
{
    let p = choose|p: Seq<Node>| #![trigger trail(map, p)] p.len() == w1 + 1 && p[0] == a && p[w1] == b && trail(map, p);
    let q = choose|q: Seq<Node>| #![trigger trail(map, q)] q.len() == w2 + 1 && q[0] == b && q[w2] == c && trail(map, q);
    let r = p + q.drop_first();
    assert forall|i: int| 0 <= i < r.len() - 1 implies #[trigger] side_by_side(map, r[i], r[i + 1]) by {
        if i < w1 {
            assert(side_by_side(map, p[i], p[i + 1]));
            assert(r[i] == p[i] && r[i + 1] == p[i + 1]);
        } else {
            let j = i - w1;
            assert(side_by_side(map, q[j], q[j + 1]));
            if i == w1 {
                assert(r[i] == p[w1]);
            } else {
                assert(r[i] == q.drop_first()[i - w1 - 1]);
            }
            assert(r[i + 1] == q.drop_first()[i - w1]);
        }
    }
    assert(trail(map, r));
    assert(r[w1 + w2] == c);
}

proof fn lemma_intern(s: Seq<Node>, n: Node)
    ensures
        intern(s, n).0.len() >= s.len(),
        forall|j: int| 0 <= j < s.len() ==> #[trigger] intern(s, n).0[j] == s[j],
        0 <= intern(s, n).1 < intern(s, n).0.len(),
        intern(s, n).0[intern(s, n).1] == n,
{
}

proof fn lemma_edges_walked_grow(map: Seq<Seq<Tile>>, nodes: Seq<Node>, n2: Seq<Node>, edges: Seq<(int, int, usize)>)
    requires
        edges_walked(map, nodes, edges),
        n2.len() >= nodes.len(),
        forall|j: int| 0 <= j < nodes.len() ==> #[trigger] n2[j] == nodes[j],
    ensures
        edges_walked(map, n2, edges),
{
    assert forall|i: int| 0 <= i < edges.len() implies 0 <= (#[trigger] edges[i]).0 < n2.len() && 0 <= edges[i].1 < n2.len()
        && walked(map, n2[edges[i].0], n2[edges[i].1], edges[i].2 as int) by {
        assert(n2[edges[i].0] == nodes[edges[i].0]);
        assert(n2[edges[i].1] == nodes[edges[i].1]);
    }
}

/// `n` keeps the nodes `old` at their numbers, and all its nodes are open.
pub open spec fn nodes_kept(map: Seq<Seq<Tile>>, old: Seq<Node>, n: Seq<Node>) -> bool {
    &&& n.len() >= old.len()
    &&& forall|j: int| 0 <= j < old.len() ==> #[trigger] n[j] == old[j]
    &&& forall|j: int| 0 <= j < n.len() ==> open_tile(map, #[trigger] n[j])
}

/// Every edge of the corridor graph stands for a walk over the map as long
/// as its weight; the graph's nodes are open tiles, and those it started
/// with keep their numbers.
#[verifier::rlimit(80)]
#[verifier::spinoff_prover]
pub proof fn lemma_search_walks(map: Seq<Seq<Tile>>, st: Search, k: nat)
    requires
        search_inv(map, st, k),
    ensures
        search(map, st, k) is Some ==> edges_walked(map, search(map, st, k).unwrap().0, search(map, st, k).unwrap().1),
        search(map, st, k) is Some ==> nodes_kept(map, st.nodes, search(map, st, k).unwrap().0),
    decreases k,
{
    if k > 0 {
        match st.walk {
            None => {
                if st.queue.len() > 0 {
                    let (from, to) = st.queue[0];
                    let rest = st.queue.drop_first();
                    assert forall|i: int| 0 <= i < rest.len() implies nbrs(map, (#[trigger] rest[i]).0).contains(rest[i].1) by {
                        assert(rest[i] == st.queue[i + 1]);
                    }
                    assert forall|i: int| 0 <= i < rest.len() implies open_tile(map, (#[trigger] rest[i]).0) by {
                        assert(rest[i] == st.queue[i + 1]);
                    }
                    if st.visited.contains(to) {
                        lemma_search_walks(map, Search { queue: rest, ..st }, (k - 1) as nat);
                    } else {
                        let p = seq![from, to];
                        assert(nbrs(map, st.queue[0].0).contains(st.queue[0].1));
                        assert(open_tile(map, st.queue[0].0));
                        assert(walk(map, p));
                        assert(walked_via(map, from, from, to, 1));
                        lemma_search_walks(map, Search { queue: rest, visited: st.visited.push(to), walk: Some((from, from, to, 1int)), ..st }, (k - 1) as nat);
                    }
                }
            },
            Some((hub, cf, ct, w)) => {
                let succs = without(nbrs(map, ct), cf);
                lemma_without(nbrs(map, ct), cf);
                let p = choose|p: Seq<Node>| #![trigger walk(map, p)] p.len() == w + 1 && p[0] == hub && p[w - 1] == cf && p[w] == ct && walk(map, p);
                assert(nbrs(map, p[w - 1]).contains(p[w - 1 + 1]));
                lemma_nbrs_step(map, cf, ct);
                if succs.len() == 1 && succs[0] != dest_node(map) {
                    let p2 = p.push(succs[0]);
                    assert(nbrs(map, ct).contains(succs[0]));
                    assert(walk(map, p2)) by {
                        assert forall|i: int| 0 <= i < p2.len() - 1 implies nbrs(map, #[trigger] p2[i]).contains(p2[i + 1]) by {
                            if i < w {
                                assert(p2[i] == p[i] && p2[i + 1] == p[i + 1]);
                            }
                        }
                    }
                    assert(walked_via(map, hub, ct, succs[0], w + 1));
                    lemma_search_walks(map, Search { walk: Some((hub, ct, succs[0], w + 1)), ..st }, (k - 1) as nat);
                } else {
                    let (n1, hid) = intern(st.nodes, hub);
                    let (n2, tid) = intern(n1, ct);
                    lemma_intern(st.nodes, hub);
                    lemma_intern(n1, ct);
                    let e2 = if undirected_adj(st.edges)(hid, tid) { st.edges } else { st.edges.push((hid, tid, w as usize)) };
                    assert forall|j: int| 0 <= j < st.nodes.len() implies #[trigger] n2[j] == st.nodes[j] by {
                        assert(n1[j] == st.nodes[j]);
                    }
                    assert forall|j: int| 0 <= j < n2.len() implies open_tile(map, #[trigger] n2[j]) by {
                        if j < n1.len() {
                            assert(n2[j] == n1[j]);
                            if j < st.nodes.len() {
                                assert(n1[j] == st.nodes[j]);
                            }
                        }
                    }
                    lemma_edges_walked_grow(map, st.nodes, n2, st.edges);
                    assert(n2[hid] == hub) by {
                        assert(n2[hid] == n1[hid]);
                    }
                    assert(walked(map, hub, ct, w));
                    assert(edges_walked(map, n2, e2)) by {
                        assert forall|i: int| 0 <= i < e2.len() implies 0 <= (#[trigger] e2[i]).0 < n2.len() && 0 <= e2[i].1 < n2.len()
                            && walked(map, n2[e2[i].0], n2[e2[i].1], e2[i].2 as int) by {
                            if i < st.edges.len() {
                                assert(e2[i] == st.edges[i]);
                            }
                        }
                    }
                    let q2 = st.queue + succs.map_values(|e: Node| (ct, e));
                    assert forall|i: int| 0 <= i < q2.len() implies nbrs(map, (#[trigger] q2[i]).0).contains(q2[i].1) by {
                        if i < st.queue.len() {
                            assert(q2[i] == st.queue[i]);
                        } else {
                            assert(q2[i] == (ct, succs[i - st.queue.len()]));
                        }
                    }
                    assert forall|i: int| 0 <= i < q2.len() implies open_tile(map, (#[trigger] q2[i]).0) by {
                        if i < st.queue.len() {
                            assert(q2[i] == st.queue[i]);
                        } else {
                            assert(q2[i] == (ct, succs[i - st.queue.len()]));
                        }
                    }
                    let st2 = Search { queue: q2, nodes: n2, edges: e2, walk: None, ..st };
                    lemma_search_walks(map, st2, (k - 1) as nat);
                    if search(map, st2, (k - 1) as nat) is Some {
                        let nf = search(map, st2, (k - 1) as nat).unwrap().0;
                        assert forall|j: int| 0 <= j < st.nodes.len() implies #[trigger] nf[j] == st.nodes[j] by {
                            assert(nf[j] == n2[j]);
                        }
                    }
                }
            },
        }
    }
}

/// No two edges join the same two nodes.
pub open spec fn single_edges(edges: Seq<(int, int, usize)>) -> bool {
    forall|i: int, j: int| #![trigger edges[i], edges[j]] 0 <= i < j < edges.len() ==> !joins(edges[i], edges[j].0, edges[j].1)
}

/// The corridor search never joins two nodes twice.
pub proof fn lemma_search_single(map: Seq<Seq<Tile>>, st: Search, k: nat)
    requires
        single_edges(st.edges),
    ensures
        search(map, st, k) matches Some((n, e)) ==> single_edges(e),
    decreases k,
{
    if k > 0 {
        match st.walk {
            None => {
                if st.queue.len() > 0 {
                    let (from, to) = st.queue[0];
                    let rest = st.queue.drop_first();
                    if st.visited.contains(to) {
                        lemma_search_single(map, Search { queue: rest, ..st }, (k - 1) as nat);
                    } else {
                        lemma_search_single(map, Search { queue: rest, visited: st.visited.push(to), walk: Some((from, from, to, 1int)), ..st }, (k - 1) as nat);
                    }
                }
            },
            Some((hub, cf, ct, w)) => {
                let succs = without(nbrs(map, ct), cf);
                if succs.len() == 1 && succs[0] != dest_node(map) {
                    lemma_search_single(map, Search { walk: Some((hub, ct, succs[0], w + 1)), ..st }, (k - 1) as nat);
                } else {
                    let (n1, hid) = intern(st.nodes, hub);
                    let (n2, tid) = intern(n1, ct);
                    let e2 = if undirected_adj(st.edges)(hid, tid) { st.edges } else { st.edges.push((hid, tid, w as usize)) };
                    if !undirected_adj(st.edges)(hid, tid) {
                        assert forall|i: int, j: int| #![trigger e2[i], e2[j]] 0 <= i < j < e2.len() implies !joins(e2[i], e2[j].0, e2[j].1) by {
                            if j == st.edges.len() {
                                if joins(e2[i], hid, tid) {
                                    assert(st.edges[i] == e2[i]);
                                }
                            }
                        }
                    }
                    let q2 = st.queue + succs.map_values(|e: Node| (ct, e));
                    lemma_search_single(map, Search { queue: q2, nodes: n2, edges: e2, walk: None, ..st }, (k - 1) as nat);
                }
            },
        }
    }
}

pub open spec fn flat(t: Tile) -> Tile {
    if t == Tile::Forest { Tile::Forest } else { Tile::Path }
}

/// The map with every slope read as a plain path.
pub open spec fn no_slopes(map: Seq<Seq<Tile>>) -> Seq<Seq<Tile>> {
    map.map_values(|r: Seq<Tile>| r.map_values(|t: Tile| flat(t)))
}

/// The corridor graph's nodes and edges for `map`.
pub open spec fn corridors(map: Seq<Seq<Tile>>) -> (Seq<Node>, Seq<(int, int, usize)>) {
    search(map, search_start(map), search_limit()).unwrap()
}

/// The weight of the edge that joins `a` and `b`.
pub open spec fn pair_weight(edges: Seq<(int, int, usize)>, a: int, b: int) -> int {
    edges[choose|i: int| 0 <= i < edges.len() && joins(edges[i], a, b)].2 as int
}

/// The summed weight of the steps of the first `n` nodes of the path `p`.
pub open spec fn path_weight(edges: Seq<(int, int, usize)>, p: Seq<usize>, n: int) -> int
    decreases n,
{
    if n <= 1 {
        0
    } else {
        path_weight(edges, p, n - 1) + pair_weight(edges, p[n - 2] as int, p[n - 1] as int)
    }
}

/// A hike through the corridor graph of `map`: a simple path from the
/// start (node 0) to the destination (node 1).
pub open spec fn corridor_hike(map: Seq<Seq<Tile>>, p: Seq<usize>) -> bool {
    simple_path(undirected_adj(corridors(map).1), corridors(map).0.len() as int, 0, 1, p)
}

/// Along a path of the corridor graph the weights add up to the length of
/// a trail over the map from the path's first node to its last.
pub proof fn lemma_path_trail(map: Seq<Seq<Tile>>, nodes: Seq<Node>, edges: Seq<(int, int, usize)>, p: Seq<usize>, n: int)
    requires
        edges_walked(map, nodes, edges),
        forall|j: int| 0 <= j < nodes.len() ==> open_tile(map, #[trigger] nodes[j]),
        forall|i: int| 0 <= i < p.len() ==> (#[trigger] p[i]) < nodes.len(),
        forall|i: int| 0 <= i < p.len() - 1 ==> undirected_adj(edges)(#[trigger] p[i] as int, p[i + 1] as int),
        1 <= n <= p.len(),
        map.len() <= usize::MAX,
        map[0].len() <= usize::MAX,
    ensures
        path_weight(edges, p, n) >= 0,
        trail_len(map, nodes[p[0] as int], nodes[p[n - 1] as int], path_weight(edges, p, n)),
    decreases n,
{
    if n == 1 {
        let t = seq![nodes[p[0] as int]];
        assert(trail(map, t));
    } else {
        lemma_path_trail(map, nodes, edges, p, n - 1);
        let a = p[n - 2] as int;
        let b = p[n - 1] as int;
        assert(p[n - 2] < nodes.len() && p[n - 1] < nodes.len());
        assert(undirected_adj(edges)(p[n - 2] as int, p[n - 2 + 1] as int));
        let i = choose|i: int| 0 <= i < edges.len() && joins(edges[i], a, b);
        let e = edges[i];
        assert(walked(map, nodes[e.0], nodes[e.1], e.2 as int));
        let q = choose|q: Seq<Node>| #![trigger walk(map, q)] q.len() == e.2 + 1 && q[0] == nodes[e.0] && q[e.2 as int] == nodes[e.1] && walk(map, q);
        assert(open_tile(map, nodes[e.0]));
        lemma_walk_trail(map, q);
        assert(trail_len(map, nodes[e.0], nodes[e.1], e.2 as int));
        if !(e.0 == a && e.1 == b) {
            lemma_trail_back(map, nodes[e.0], nodes[e.1], e.2 as int);
        }
        assert(trail_len(map, nodes[a], nodes[b], pair_weight(edges, a, b)));
        lemma_trail_join(map, nodes[p[0] as int], nodes[a], nodes[b], path_weight(edges, p, n - 1), pair_weight(edges, a, b));
    }
}

proof fn lemma_path_weight_mono(edges: Seq<(int, int, usize)>, p: Seq<usize>, a: int, b: int)
    requires
        a <= b,
    ensures
        path_weight(edges, p, a) <= path_weight(edges, p, b),
    decreases b - a,
{
    if a < b {
        lemma_path_weight_mono(edges, p, a, b - 1);
    }
}

/// The summed weight of a path of the corridor graph `g`.
fn weigh(g: &UnGraph<Node, usize>, p: &Vec<usize>) -> (res: usize)
    requires
        single_edges(ug_edges(*g)),
        p@.len() >= 1,
        forall|i: int| 0 <= i < p@.len() - 1 ==> undirected_adj(ug_edges(*g))(#[trigger] p@[i] as int, p@[i + 1] as int),
        path_weight(ug_edges(*g), p@, p@.len() as int) <= usize::MAX,
    ensures
        res == path_weight(ug_edges(*g), p@, p@.len() as int),
{
    let ghost e = ug_edges(*g);
    let mut total: usize = 0;
    let mut j: usize = 1;
    while j < p.len()
        invariant
            1 <= j <= p@.len(),
            e == ug_edges(*g),
            single_edges(e),
            forall|i: int| 0 <= i < p@.len() - 1 ==> undirected_adj(e)(#[trigger] p@[i] as int, p@[i + 1] as int),
            path_weight(e, p@, p@.len() as int) <= usize::MAX,
            total == path_weight(e, p@, j as int),
        decreases p@.len() - j,
    {
        assert(undirected_adj(e)(p@[j - 1] as int, p@[j as int] as int));
        let wt = ug_edge_weight(g, p[j - 1], p[j]);
        proof {
            let a = p@[j - 1] as int;
            let b = p@[j as int] as int;
            let i1 = choose|i: int| 0 <= i < e.len() && joins(#[trigger] e[i], a, b) && e[i].2 == wt;
            let i2 = choose|i: int| 0 <= i < e.len() && joins(e[i], a, b);
            if i1 != i2 {
                if i1 < i2 {
                    assert(joins(e[i1], e[i2].0, e[i2].1));
                } else {
                    assert(joins(e[i2], e[i1].0, e[i1].1));
                }
            }
            assert(pair_weight(e, a, b) == wt);
            lemma_path_weight_mono(e, p@, j + 1, p@.len() as int);
        }
        total = total + wt;
        j += 1;
    }
    total
}

/// The summed weight of the longest hike when slopes may be climbed: the
/// map's corridors are condensed into a graph whose edges weigh their
/// lengths, and every simple path from start to destination is weighed.
pub fn part2(input: &[Vec<Tile>]) -> (res: usize)
    requires
        rect(grid(input@)),
        ends_ok(no_slopes(grid(input@))),
        search(no_slopes(grid(input@)), search_start(no_slopes(grid(input@))), search_limit()) is Some,
        exists|p: Seq<usize>| corridor_hike(no_slopes(grid(input@)), p),
        forall|p: Seq<usize>| corridor_hike(no_slopes(grid(input@)), p) ==> path_weight(corridors(no_slopes(grid(input@))).1, p, p.len() as int) <= usize::MAX,
    ensures
        exists|p: Seq<usize>| corridor_hike(no_slopes(grid(input@)), p) && path_weight(corridors(no_slopes(grid(input@))).1, p, p.len() as int) == res,
        forall|p: Seq<usize>| corridor_hike(no_slopes(grid(input@)), p) ==> path_weight(corridors(no_slopes(grid(input@))).1, p, p.len() as int) <= res,
        trail_len(no_slopes(grid(input@)), start_node(no_slopes(grid(input@))), dest_node(no_slopes(grid(input@))), res as int),
{
    let ghost m = no_slopes(grid(input@));
    let mut flat_map: Vec<Vec<Tile>> = Vec::new();
    let mut y: usize = 0;
    while y < input.len()
        invariant
            y <= input@.len(),
            flat_map@.len() == y,
            forall|k: int| 0 <= k < y ==> (#[trigger] flat_map@[k])@ == input@[k]@.map_values(|t: Tile| flat(t)),
        decreases input@.len() - y,
    {
        let mut row: Vec<Tile> = Vec::new();
        let mut x: usize = 0;
        while x < input[y].len()
            invariant
                y < input@.len(),
                x <= input@[y as int]@.len(),
                row@ =~= input@[y as int]@.take(x as int).map_values(|t: Tile| flat(t)),
            decreases input@[y as int]@.len() - x,
        {
            let t = if input[y][x] == Tile::Forest { Tile::Forest } else { Tile::Path };
            row.push(t);
            x += 1;
        }
        assert(input@[y as int]@.take(x as int) =~= input@[y as int]@);
        flat_map.push(row);
        y += 1;
    }
    assert(grid(flat_map@) =~= m) by {
        assert forall|k: int| 0 <= k < m.len() implies grid(flat_map@)[k] == m[k] by {
            assert(grid(flat_map@)[k] =~= m[k]);
        }
    }
    assert(rect(m)) by {
        assert forall|y: int| 0 <= y < m.len() implies (#[trigger] m[y]).len() == m[0].len() by {
            assert(grid(input@)[y].len() == grid(input@)[0].len());
        }
    }
    let (g, s_id, d_id) = match build_graph2(&flat_map) {
        Some(r) => r,
        None => {
            assert(false);
            return 0;
        },
    };
    proof {
        lemma_search_single(m, search_start(m), search_limit());
        assert(corridors(m) == (ug_nodes(g), ug_edges(g)));
    }
    let ghost p0 = choose|p: Seq<usize>| corridor_hike(m, p);
    proof {
        assert(p0[0] == 0 && p0.last() == 1);
        assert(p0[0] < ug_nodes(g).len() && p0.last() < ug_nodes(g).len());
    }
    let paths = ug_simple_paths(&g, s_id, d_id);
    assert(exists|i: int| 0 <= i < paths@.len() && (#[trigger] paths@[i])@ == p0);
    let mut best: usize = 0;
    let mut bi: usize = 0;
    let mut i: usize = 0;
    while i < paths.len()
        invariant
            i <= paths@.len(),
            paths@.len() > 0,
            bi < paths@.len(),
            corridors(m) == (ug_nodes(g), ug_edges(g)),
            single_edges(ug_edges(g)),
            forall|p: Seq<usize>| (exists|i: int| 0 <= i < paths@.len() && (#[trigger] paths@[i])@ == p) <==> corridor_hike(m, p),
            forall|p: Seq<usize>| corridor_hike(m, p) ==> path_weight(corridors(m).1, p, p.len() as int) <= usize::MAX,
            i > 0 ==> best == path_weight(ug_edges(g), paths@[bi as int]@, paths@[bi as int]@.len() as int),
            forall|k: int| 0 <= k < i ==> path_weight(ug_edges(g), (#[trigger] paths@[k])@, paths@[k]@.len() as int) <= best,
        decreases paths@.len() - i,
    {
        let p = &paths[i];
        assert(corridor_hike(m, p@));
        let wt = weigh(&g, p);
        if i == 0 || wt > best {
            best = wt;
            bi = i;
        }
        i += 1;
    }
    proof {
        assert(corridor_hike(m, paths@[bi as int]@));
        assert forall|p: Seq<usize>| corridor_hike(m, p) implies path_weight(corridors(m).1, p, p.len() as int) <= best by {
            let k = choose|k: int| 0 <= k < paths@.len() && (#[trigger] paths@[k])@ == p;
            assert(path_weight(ug_edges(g), paths@[k]@, paths@[k]@.len() as int) <= best);
        }
        let pb = paths@[bi as int]@;
        lemma_rect_dims(m);
        lemma_path_trail(m, ug_nodes(g), ug_edges(g), pb, pb.len() as int);
        assert(ug_nodes(g)[0] == start_node(m) && ug_nodes(g)[1] == dest_node(m)) by {
            assert(seq![start_node(m), dest_node(m)][0] == start_node(m));
            assert(seq![start_node(m), dest_node(m)][1] == dest_node(m));
        }
        assert(pb[pb.len() - 1] == pb.last());
    }
    best
}

} // verus!
