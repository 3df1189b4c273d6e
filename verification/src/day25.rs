//! The minimum cut of a wiring diagram: the Stoer–Wagner algorithm on a
//! weighted undirected graph, merging nodes phase after phase.
use vstd::prelude::*;
use petgraph::graph::{NodeIndex, UnGraph};
use petgraph::visit::EdgeRef;
use std::collections::HashSet;
use crate::day19::{copy_range, lemma_lower_run, lower_end, lower_run};
use crate::day20::p_ident;
use crate::day9::{at, byte_is};
use crate::text::{matches_at, same_bytes, starts_with_at, ParseError};

verus! {

/// An edge as its two ends and its weight.
pub type EdgeV = (int, int, usize);

/// The edge `e` joins `x` and `y`, either way round.
pub open spec fn joins(e: EdgeV, x: int, y: int) -> bool {
    (e.0 == x && e.1 == y) || (e.0 == y && e.1 == x)
}

/// The number of edges that join `x` and `y`.
pub open spec fn pc(es: Seq<EdgeV>, x: int, y: int) -> int
    decreases es.len(),
{
    if es.len() == 0 { 0 } else { pc(es.drop_last(), x, y) + if joins(es.last(), x, y) { 1int } else { 0int } }
}

/// The total weight of the edges that join `x` and `y`.
pub open spec fn aw(es: Seq<EdgeV>, x: int, y: int) -> int
    decreases es.len(),
{
    if es.len() == 0 { 0 } else { aw(es.drop_last(), x, y) + if joins(es.last(), x, y) { es.last().2 as int } else { 0int } }
}

/// How often `n` occurs in `s`.
pub open spec fn cnt(s: Seq<usize>, n: int) -> int
    decreases s.len(),
{
    if s.len() == 0 { 0 } else { cnt(s.drop_last(), n) + if s.last() == n { 1int } else { 0int } }
}

/// The total weight of the entries of `l` (other end, weight) whose other
/// end is `t`.
pub open spec fn lsum_at(l: Seq<(usize, usize)>, t: int) -> int
    decreases l.len(),
{
    if l.len() == 0 { 0 } else { lsum_at(l.drop_last(), t) + if l.last().0 == t { l.last().1 as int } else { 0int } }
}

/// The total weight of the entries of `l` whose other end satisfies `s`.
pub open spec fn lsum_in(l: Seq<(usize, usize)>, s: spec_fn(int) -> bool) -> int
    decreases l.len(),
{
    if l.len() == 0 { 0 } else { lsum_in(l.drop_last(), s) + if s(l.last().0 as int) { l.last().1 as int } else { 0int } }
}

/// The sum of `row[t]` over the `t < k` that satisfy `s`.
pub open spec fn rsum(row: Seq<int>, s: spec_fn(int) -> bool, k: int) -> int
    decreases k,
{
    if k <= 0 { 0 } else { rsum(row, s, k - 1) + if s(k - 1) { row[k - 1] } else { 0int } }
}

/// The weights between the nodes of a graph with `n` nodes, as a matrix.
pub open spec fn adj(es: Seq<EdgeV>, n: int) -> Seq<Seq<int>> {
    Seq::new(n as nat, |x: int| Seq::new(n as nat, |y: int| aw(es, x, y)))
}

/// A simple graph on `n` nodes: every edge joins two of them, no edge joins
/// a node to itself, at most one edge joins two nodes, and it weighs more
/// than nothing.
pub open spec fn graph_ok(es: Seq<EdgeV>, n: int) -> bool {
    &&& forall|i: int| 0 <= i < es.len() ==> 0 <= (#[trigger] es[i]).0 < n && 0 <= es[i].1 < n
    &&& forall|x: int, y: int| 0 <= x < n && 0 <= y < n ==> #[trigger] pc(es, x, y) == (if aw(es, x, y) > 0 { 1int } else { 0int })
    &&& forall|x: int| 0 <= x < n ==> #[trigger] aw(es, x, x) == 0
}

proof fn lemma_push(es: Seq<EdgeV>, e: EdgeV)
    ensures
        forall|x: int, y: int| #![trigger pc(es.push(e), x, y)] #![trigger aw(es.push(e), x, y)]
            pc(es.push(e), x, y) == pc(es, x, y) + (if joins(e, x, y) { 1int } else { 0int })
            && aw(es.push(e), x, y) == aw(es, x, y) + (if joins(e, x, y) { e.2 as int } else { 0int }),
{
    assert(es.push(e).drop_last() =~= es);
}

proof fn lemma_counts_nonneg(es: Seq<EdgeV>, x: int, y: int)
    ensures
        pc(es, x, y) >= 0,
        aw(es, x, y) >= 0,
        pc(es, x, y) == 0 ==> aw(es, x, y) == 0,
    decreases es.len(),
{
    if es.len() > 0 {
        lemma_counts_nonneg(es.drop_last(), x, y);
    }
}

proof fn lemma_sym(es: Seq<EdgeV>, x: int, y: int)
    ensures
        pc(es, x, y) == pc(es, y, x),
        aw(es, x, y) == aw(es, y, x),
    decreases es.len(),
{
    if es.len() > 0 {
        lemma_sym(es.drop_last(), x, y);
    }
}

proof fn lemma_joined(es: Seq<EdgeV>, i: int, x: int, y: int)
    requires
        0 <= i < es.len(),
        joins(es[i], x, y),
    ensures
        pc(es, x, y) >= 1,
        pc(es, x, y) == 1 ==> es[i].2 == aw(es, x, y),
    decreases es.len(),
{
    lemma_counts_nonneg(es.drop_last(), x, y);
    if i < es.len() - 1 {
        lemma_joined(es.drop_last(), i, x, y);
    }
}

proof fn lemma_update(es: Seq<EdgeV>, i: int, e: EdgeV)
    requires
        0 <= i < es.len(),
        e.0 == es[i].0,
        e.1 == es[i].1,
    ensures
        forall|x: int, y: int| #![trigger pc(es.update(i, e), x, y)] #![trigger aw(es.update(i, e), x, y)]
            pc(es.update(i, e), x, y) == pc(es, x, y)
            && aw(es.update(i, e), x, y) == aw(es, x, y) + (if joins(e, x, y) { e.2 - es[i].2 } else { 0int }),
    decreases es.len(),
{
    let u = es.update(i, e);
    if i == es.len() - 1 {
        assert(u.drop_last() =~= es.drop_last());
    } else {
        lemma_update(es.drop_last(), i, e);
        assert(u.drop_last() =~= es.drop_last().update(i, e));
    }
    assert forall|x: int, y: int| #![trigger pc(u, x, y)] #![trigger aw(u, x, y)]
        pc(u, x, y) == pc(es, x, y)
        && aw(u, x, y) == aw(es, x, y) + (if joins(e, x, y) { e.2 - es[i].2 } else { 0int }) by {
        assert(pc(u, x, y) == pc(u.drop_last(), x, y) + if joins(u.last(), x, y) { 1int } else { 0int });
        assert(aw(u, x, y) == aw(u.drop_last(), x, y) + if joins(u.last(), x, y) { u.last().2 as int } else { 0int });
    }
}

proof fn lemma_cnt_push(s: Seq<usize>, v: usize)
    ensures
        forall|n: int| #[trigger] cnt(s.push(v), n) == cnt(s, n) + (if v == n { 1int } else { 0int }),
{
    assert(s.push(v).drop_last() =~= s);
}

proof fn lemma_cnt_take(s: Seq<usize>, k: int, n: int)
    requires
        0 <= k <= s.len(),
    ensures
        0 <= cnt(s.take(k), n) <= cnt(s, n),
    decreases s.len() - k,
{
    if k < s.len() {
        lemma_cnt_take(s, k + 1, n);
        lemma_cnt_nonneg(s.take(k), n);
        assert(s.take(k + 1).drop_last() =~= s.take(k));
    } else {
        assert(s.take(k) =~= s);
        lemma_cnt_nonneg(s, n);
    }
}

proof fn lemma_cnt_nonneg(s: Seq<usize>, n: int)
    ensures
        cnt(s, n) >= 0,
    decreases s.len(),
{
    if s.len() > 0 {
        lemma_cnt_nonneg(s.drop_last(), n);
    }
}

proof fn lemma_cnt_at(s: Seq<usize>, i: int)
    requires
        0 <= i < s.len(),
    ensures
        cnt(s, s[i] as int) >= 1,
    decreases s.len(),
{
    lemma_cnt_nonneg(s.drop_last(), s[i] as int);
    if i < s.len() - 1 {
        lemma_cnt_at(s.drop_last(), i);
    }
}

/// The sum of `cnt(s, n)` over `n < k`.
pub open spec fn csum(s: Seq<usize>, k: int) -> int
    decreases k,
{
    if k <= 0 { 0 } else { csum(s, k - 1) + cnt(s, k - 1) }
}

proof fn lemma_csum_push(s: Seq<usize>, v: usize, k: int)
    requires
        k >= 0,
    ensures
        csum(s.push(v), k) == csum(s, k) + (if v < k { 1int } else { 0int }),
    decreases k,
{
    lemma_cnt_push(s, v);
    if k > 0 {
        lemma_csum_push(s, v, k - 1);
    }
}

proof fn lemma_csum_bound(s: Seq<usize>, k: int)
    requires
        k >= 0,
        forall|n: int| #[trigger] cnt(s, n) <= 1,
    ensures
        csum(s, k) <= k,
    decreases k,
{
    if k > 0 {
        lemma_csum_bound(s, k - 1);
    }
}

/// A sequence below `n` in which nothing occurs twice has at most `n`
/// entries.
proof fn lemma_len_bound(s: Seq<usize>, n: int)
    requires
        n >= 0,
        forall|i: int| 0 <= i < s.len() ==> #[trigger] s[i] < n,
        forall|v: int| #[trigger] cnt(s, v) <= 1,
    ensures
        s.len() <= n,
{
    lemma_csum_len(s, n);
    lemma_csum_bound(s, n);
}

proof fn lemma_csum_len(s: Seq<usize>, n: int)
    requires
        n >= 0,
        forall|i: int| 0 <= i < s.len() ==> #[trigger] s[i] < n,
    ensures
        csum(s, n) == s.len(),
    decreases s.len(),
{
    if s.len() == 0 {
        lemma_csum_zero(s, n);
    } else {
        let t = s.drop_last();
        assert(t.push(s.last()) =~= s);
        lemma_csum_len(t, n);
        lemma_csum_push(t, s.last(), n);
    }
}

proof fn lemma_csum_zero(s: Seq<usize>, k: int)
    requires
        s.len() == 0,
    ensures
        csum(s, k) == 0,
    decreases k,
{
    if k > 0 {
        lemma_csum_zero(s, k - 1);
    }
}

/// The node weights of a cut graph, by index.
pub uninterp spec fn cg_weights(g: UnGraph<usize, usize>) -> Seq<int>;

/// The edges of a cut graph, by index.
pub uninterp spec fn cg_edges(g: UnGraph<usize, usize>) -> Seq<EdgeV>;

/// `Graph::new_undirected`: a graph without nodes or edges.
#[verifier::external_body]
fn cg_new() -> (g: UnGraph<usize, usize>)
    ensures
        cg_weights(g) == Seq::<int>::empty(),
        cg_edges(g) == Seq::<EdgeV>::empty(),
{
    UnGraph::new_undirected()
}

/// `Graph::add_node`: appends a node of weight `w` and returns its index
/// (it panics only once the `u32` indices run out).
#[verifier::external_body]
fn cg_add_node(g: &mut UnGraph<usize, usize>, w: usize) -> (id: usize)
    requires
        cg_weights(*old(g)).len() < u32::MAX,
    ensures
        id == cg_weights(*old(g)).len(),
        cg_weights(*final(g)) == cg_weights(*old(g)).push(w as int),
        cg_edges(*final(g)) == cg_edges(*old(g)),
{
    g.add_node(w).index()
}

/// `Graph::add_edge`: appends an edge from `a` to `b` of weight `w`.
#[verifier::external_body]
fn cg_add_edge(g: &mut UnGraph<usize, usize>, a: usize, b: usize, w: usize)
    requires
        a < cg_weights(*old(g)).len(),
        b < cg_weights(*old(g)).len(),
        cg_edges(*old(g)).len() < u32::MAX,
    ensures
        cg_weights(*final(g)) == cg_weights(*old(g)),
        cg_edges(*final(g)) == cg_edges(*old(g)).push((a as int, b as int, w)),
{
    g.add_edge(NodeIndex::new(a), NodeIndex::new(b), w);
}

/// `Graph::node_count`.
#[verifier::external_body]
fn cg_node_count(g: &UnGraph<usize, usize>) -> (res: usize)
    ensures
        res == cg_weights(*g).len(),
{
    g.node_count()
}

/// `Graph::node_weight` of a node that exists.
#[verifier::external_body]
fn cg_node_weight(g: &UnGraph<usize, usize>, i: usize) -> (res: usize)
    requires
        i < cg_weights(*g).len(),
    ensures
        res == cg_weights(*g)[i as int],
{
    *g.node_weight(NodeIndex::new(i)).unwrap()
}

/// `Graph::neighbors` on an undirected graph, collected: the other end of
/// each edge at `a`, once per edge (a loop once), in the order of the
/// graph's edge lists, which this contract leaves open.
#[verifier::external_body]
fn cg_neighbors(g: &UnGraph<usize, usize>, a: usize) -> (res: Vec<usize>)
    requires
        a < cg_weights(*g).len(),
    ensures
        forall|n: int| #[trigger] cnt(res@, n) == pc(cg_edges(*g), a as int, n),
        forall|i: int| 0 <= i < res@.len() ==> #[trigger] res@[i] < cg_weights(*g).len(),
{
    g.neighbors(NodeIndex::new(a)).map(|n: NodeIndex| n.index()).collect()
}

/// `Graph::edges` on an undirected graph, collected as (other end,
/// weight): one entry per edge at `n` (a loop once), in an order that this
/// contract leaves open.
#[verifier::external_body]
fn cg_edges_of(g: &UnGraph<usize, usize>, n: usize) -> (res: Vec<(usize, usize)>)
    requires
        n < cg_weights(*g).len(),
    ensures
        forall|t: int| #[trigger] lsum_at(res@, t) == aw(cg_edges(*g), n as int, t),
        forall|i: int| 0 <= i < res@.len() ==> (#[trigger] res@[i]).0 < cg_weights(*g).len(),
{
    g.edges(NodeIndex::new(n)).map(|e| (e.target().index(), *e.weight())).collect()
}

/// `Graph::find_edge` on an undirected graph: the index of an edge that
/// joins `a` and `b`, if there is one (which one, where several do, this
/// contract leaves open).
#[verifier::external_body]
fn cg_find_edge(g: &UnGraph<usize, usize>, a: usize, b: usize) -> (res: Option<usize>)
    requires
        a < cg_weights(*g).len(),
        b < cg_weights(*g).len(),
    ensures
        match res {
            Some(i) => i < cg_edges(*g).len() && joins(cg_edges(*g)[i as int], a as int, b as int),
            None => pc(cg_edges(*g), a as int, b as int) == 0,
        },
{
    match g.find_edge(NodeIndex::new(a), NodeIndex::new(b)) {
        Some(e) => Some(e.index()),
        None => None,
    }
}

/// `Graph::edge_weight` of an edge that exists.
#[verifier::external_body]
fn cg_edge_weight(g: &UnGraph<usize, usize>, e: usize) -> (res: usize)
    requires
        e < cg_edges(*g).len(),
    ensures
        res == cg_edges(*g)[e as int].2,
{
    *g.edge_weight(petgraph::graph::EdgeIndex::new(e)).unwrap()
}

/// `Graph::update_edge`: gives weight `w` to the edge that `find_edge(a,
/// b)` finds, or else appends an edge from `a` to `b` of weight `w`.
#[verifier::external_body]
fn cg_update_edge(g: &mut UnGraph<usize, usize>, a: usize, b: usize, w: usize)
    requires
        a < cg_weights(*old(g)).len(),
        b < cg_weights(*old(g)).len(),
        cg_edges(*old(g)).len() < u32::MAX,
    ensures
        cg_weights(*final(g)) == cg_weights(*old(g)),
        pc(cg_edges(*old(g)), a as int, b as int) == 0 ==> cg_edges(*final(g)) == cg_edges(*old(g)).push((a as int, b as int, w)),
        pc(cg_edges(*old(g)), a as int, b as int) > 0 ==> exists|i: int| 0 <= i < cg_edges(*old(g)).len()
            && joins(#[trigger] cg_edges(*old(g))[i], a as int, b as int)
            && cg_edges(*final(g)) == cg_edges(*old(g)).update(i, (cg_edges(*old(g))[i].0, cg_edges(*old(g))[i].1, w)),
{
    g.update_edge(NodeIndex::new(a), NodeIndex::new(b), w);
}

/// The index a node takes when node `i` of `n` is removed: the last node
/// moves into its place.
pub open spec fn moved(x: int, i: int, n: int) -> int {
    if x == i { n - 1 } else { x }
}

/// `Graph::remove_node`: removes node `i` and its edges; the last node
/// takes index `i`. The order of the edges that remain this contract
/// leaves open: it states how many edges join each two nodes, and their
/// total weight.
#[verifier::external_body]
fn cg_remove_node(g: &mut UnGraph<usize, usize>, i: usize)
    requires
        i < cg_weights(*old(g)).len(),
    ensures
        cg_weights(*final(g)) == cg_weights(*old(g)).update(i as int, cg_weights(*old(g)).last()).drop_last(),
        cg_edges(*final(g)).len() <= cg_edges(*old(g)).len(),
        forall|k: int| 0 <= k < cg_edges(*final(g)).len() ==> 0 <= (#[trigger] cg_edges(*final(g))[k]).0 < cg_weights(*old(g)).len() - 1
            && 0 <= cg_edges(*final(g))[k].1 < cg_weights(*old(g)).len() - 1,
        forall|x: int, y: int| 0 <= x < cg_weights(*old(g)).len() - 1 && 0 <= y < cg_weights(*old(g)).len() - 1
            ==> #[trigger] pc(cg_edges(*final(g)), x, y) == pc(cg_edges(*old(g)), moved(x, i as int, cg_weights(*old(g)).len() as int), moved(y, i as int, cg_weights(*old(g)).len() as int))
            && aw(cg_edges(*final(g)), x, y) == aw(cg_edges(*old(g)), moved(x, i as int, cg_weights(*old(g)).len() as int), moved(y, i as int, cg_weights(*old(g)).len() as int)),
{
    g.remove_node(NodeIndex::new(i));
}

/// `Clone` on a cut graph: the same nodes and edges.
#[verifier::external_body]
fn cg_clone(g: &UnGraph<usize, usize>) -> (res: UnGraph<usize, usize>)
    ensures
        cg_weights(res) == cg_weights(*g) && cg_edges(res) == cg_edges(*g),
{
    g.clone()
}

/// The graph with one node more, the last, of weight `ws[a] + ws[b]`,
/// joined to every node but `a` and `b` with their two weights to it added.
pub open spec fn with_merged(ws: Seq<int>, mx: Seq<Seq<int>>, a: int, b: int) -> (Seq<int>, Seq<Seq<int>>) {
    let n = ws.len() as int;
    (ws.push(ws[a] + ws[b]), Seq::new((n + 1) as nat, |x: int| Seq::new((n + 1) as nat, |y: int|
        if x == n && y == n {
            0
        } else if x == n {
            if y == a || y == b { 0 } else { mx[a][y] + mx[b][y] }
        } else if y == n {
            if x == a || x == b { 0 } else { mx[a][x] + mx[b][x] }
        } else {
            mx[x][y]
        })))
}

/// The graph without node `i`; the last node takes its index.
pub open spec fn swap_out(ws: Seq<int>, mx: Seq<Seq<int>>, i: int) -> (Seq<int>, Seq<Seq<int>>) {
    let n = ws.len() as int;
    (ws.update(i, ws.last()).drop_last(), Seq::new((n - 1) as nat, |x: int| Seq::new((n - 1) as nat, |y: int|
        mx[moved(x, i, n)][moved(y, i, n)])))
}

/// Nodes `a` and `b` merged into one: a new last node takes their weights
/// and edges, then `a` and then `b` are removed.
pub open spec fn merged(ws: Seq<int>, mx: Seq<Seq<int>>, a: int, b: int) -> (Seq<int>, Seq<Seq<int>>) {
    let (w1, m1) = with_merged(ws, mx, a, b);
    let (w2, m2) = swap_out(w1, m1, a);
    swap_out(w2, m2, b)
}

/// The weights that merging `a` and `b` adds up fit in a `usize`.
pub open spec fn merge_fits(ws: Seq<int>, mx: Seq<Seq<int>>, a: int, b: int) -> bool {
    &&& ws[a] + ws[b] <= usize::MAX
    &&& forall|y: int| 0 <= y < ws.len() ==> #[trigger] mx[a][y] + mx[b][y] <= usize::MAX
}

proof fn lemma_untouched(es: Seq<EdgeV>, n: int, v: int, y: int)
    requires
        forall|i: int| 0 <= i < es.len() ==> 0 <= (#[trigger] es[i]).0 < n && 0 <= es[i].1 < n,
        !(0 <= v < n),
    ensures
        pc(es, v, y) == 0,
        aw(es, v, y) == 0,
    decreases es.len(),
{
    if es.len() > 0 {
        assert(es.last() == es[es.len() - 1]);
        lemma_untouched(es.drop_last(), n, v, y);
    }
}

/// Merges nodes `a` and `b` (see `merged`).
#[verifier::loop_isolation(false)]
pub fn merge_nodes(g: &mut UnGraph<usize, usize>, a: usize, b: usize)
    requires
        graph_ok(cg_edges(*old(g)), cg_weights(*old(g)).len() as int),
        a < cg_weights(*old(g)).len(),
        b < cg_weights(*old(g)).len(),
        a != b,
        cg_weights(*old(g)).len() + 1 < u32::MAX,
        cg_edges(*old(g)).len() + 2 * cg_weights(*old(g)).len() + 2 < u32::MAX,
        merge_fits(cg_weights(*old(g)), adj(cg_edges(*old(g)), cg_weights(*old(g)).len() as int), a as int, b as int),
    ensures
        graph_ok(cg_edges(*final(g)), cg_weights(*final(g)).len() as int),
        cg_edges(*final(g)).len() <= cg_edges(*old(g)).len() + 2 * cg_weights(*old(g)).len() + 2,
        cg_weights(*final(g)).len() == cg_weights(*old(g)).len() - 1,
        (cg_weights(*final(g)), adj(cg_edges(*final(g)), cg_weights(*final(g)).len() as int))
            == merged(cg_weights(*old(g)), adj(cg_edges(*old(g)), cg_weights(*old(g)).len() as int), a as int, b as int),
{
    let ghost e0 = cg_edges(*g);
    let ghost w0 = cg_weights(*g);
    let ghost n = w0.len() as int;
    let ghost a0 = adj(e0, n);
    let wa = cg_node_weight(g, a);
    let wb = cg_node_weight(g, b);
    let m = cg_add_node(g, wa + wb);
    let ghost mi = m as int;
    proof {
        assert forall|y: int| #![trigger pc(e0, mi, y)] #![trigger aw(e0, mi, y)] pc(e0, mi, y) == 0 && aw(e0, mi, y) == 0 by {
            lemma_untouched(e0, n, mi, y);
        }
    }
    let na = cg_neighbors(g, a);
    proof {
        assert forall|v: int| #[trigger] cnt(na@, v) <= 1 by {
            lemma_counts_nonneg(e0, a as int, v);
            if 0 <= v < n {
            } else {
                lemma_untouched(e0, n, v, a as int);
                lemma_sym(e0, a as int, v);
            }
        }
        lemma_len_bound(na@, n + 1);
    }
    let mut k: usize = 0;
    while k < na.len()
        invariant
            0 <= k <= na@.len(),
            forall|v: int| #[trigger] cnt(na@, v) <= 1,
            forall|v: int| #[trigger] cnt(na@, v) == pc(e0, a as int, v),
            cg_weights(*g) == w0.push(wa + wb),
            cg_edges(*g).len() <= e0.len() + k,
            forall|i: int| 0 <= i < cg_edges(*g).len() ==> 0 <= (#[trigger] cg_edges(*g)[i]).0 <= n && 0 <= cg_edges(*g)[i].1 <= n,
            forall|x: int, y: int| #![trigger pc(cg_edges(*g), x, y)] #![trigger aw(cg_edges(*g), x, y)]
                x != mi && y != mi ==> pc(cg_edges(*g), x, y) == pc(e0, x, y) && aw(cg_edges(*g), x, y) == aw(e0, x, y),
            forall|y: int| #![trigger pc(cg_edges(*g), mi, y)] #![trigger aw(cg_edges(*g), mi, y)]
                y != b ==> pc(cg_edges(*g), mi, y) == cnt(na@.take(k as int), y)
                && aw(cg_edges(*g), mi, y) == (if cnt(na@.take(k as int), y) > 0 { aw(e0, a as int, y) } else { 0 }),
            pc(cg_edges(*g), mi, b as int) == 0,
            aw(cg_edges(*g), mi, b as int) == 0,
        decreases na@.len() - k,
    {
        let nk = na[k];
        let ghost es = cg_edges(*g);
        proof {
            lemma_cnt_take(na@, k + 1, nk as int);
            assert(na@.take(k + 1).drop_last() =~= na@.take(k as int));
            lemma_cnt_push(na@.take(k as int), nk);
            assert(na@.take(k + 1) =~= na@.take(k as int).push(nk));
            lemma_cnt_at(na@, k as int);
        }
        if nk != b {
            proof {
                lemma_cnt_take(na@, k as int, mi);
                lemma_counts_nonneg(e0, a as int, nk as int);
                lemma_untouched(e0, n, mi, a as int);
                lemma_sym(e0, a as int, mi);
            }
            let ei = match cg_find_edge(g, a, nk) {
                Some(i) => i,
                None => {
                    proof {
                        assert(false);
                    }
                    0
                },
            };
            let w = cg_edge_weight(g, ei);
            proof {
                lemma_joined(es, ei as int, a as int, nk as int);
                lemma_push(es, (mi, nk as int, w));
            }
            cg_add_edge(g, m, nk, w);
            proof {
                assert(nk as int != mi);
                assert(pc(e0, a as int, nk as int) == 1);
                assert(w == aw(e0, a as int, nk as int));
                lemma_cnt_take(na@, k as int, nk as int);
                assert(cnt(na@.take(k + 1), nk as int) == cnt(na@.take(k as int), nk as int) + 1);
                assert forall|y: int| #![trigger pc(cg_edges(*g), mi, y)] #![trigger aw(cg_edges(*g), mi, y)]
                    y != b implies pc(cg_edges(*g), mi, y) == cnt(na@.take(k + 1), y)
                    && aw(cg_edges(*g), mi, y) == (if cnt(na@.take(k + 1), y) > 0 { aw(e0, a as int, y) } else { 0 }) by {
                    assert(pc(cg_edges(*g), mi, y) == pc(es, mi, y) + (if joins((mi, nk as int, w), mi, y) { 1int } else { 0int }));
                    assert(cnt(na@.take(k + 1), y) == cnt(na@.take(k as int), y) + (if nk == y { 1int } else { 0int }));
                }
            }
        } else {
            proof {
                lemma_cnt_take(na@, k as int, b as int);
            }
        }
        k += 1;
    }
    assert(na@.take(na@.len() as int) =~= na@);
    let ghost ea = cg_edges(*g);
    proof {
        assert forall|y: int| #![trigger pc(ea, mi, y)] #![trigger aw(ea, mi, y)]
            y != b implies pc(ea, mi, y) == pc(e0, a as int, y) && aw(ea, mi, y) == aw(e0, a as int, y) by {
            lemma_counts_nonneg(e0, a as int, y);
        }
    }
    let nb = cg_neighbors(g, b);
    proof {
        assert forall|v: int| #[trigger] cnt(nb@, v) <= 1 by {
            lemma_counts_nonneg(e0, b as int, v);
            if v == mi {
                lemma_sym(ea, b as int, mi);
            } else if !(0 <= v < n) {
                lemma_untouched(e0, n, v, b as int);
                lemma_sym(e0, b as int, v);
            }
        }
        lemma_len_bound(nb@, n + 1);
        lemma_sym(ea, b as int, mi);
        assert(pc(ea, a as int, a as int) == 0);
        assert(nb@.take(0) =~= Seq::<usize>::empty());
        assert forall|y: int| #![trigger pc(ea, mi, y)] #![trigger aw(ea, mi, y)]
            y != a && y != b implies pc(ea, mi, y) == (if pc(e0, a as int, y) > 0 || cnt(nb@.take(0), y) > 0 { 1int } else { 0int })
            && aw(ea, mi, y) == aw(e0, a as int, y) + (if cnt(nb@.take(0), y) > 0 { aw(e0, b as int, y) } else { 0 }) by {
            lemma_counts_nonneg(e0, a as int, y);
            if !(0 <= y < n) {
                lemma_untouched(e0, n, y, a as int);
                lemma_sym(e0, a as int, y);
            }
        }
    }
    let mut k: usize = 0;
    while k < nb.len()
        invariant
            0 <= k <= nb@.len(),
            forall|v: int| #[trigger] cnt(nb@, v) <= 1,
            forall|v: int| #[trigger] cnt(nb@, v) == pc(ea, b as int, v),
            cg_weights(*g) == w0.push(wa + wb),
            cg_edges(*g).len() <= e0.len() + na@.len() + k,
            forall|i: int| 0 <= i < cg_edges(*g).len() ==> 0 <= (#[trigger] cg_edges(*g)[i]).0 <= n && 0 <= cg_edges(*g)[i].1 <= n,
            forall|x: int, y: int| #![trigger pc(cg_edges(*g), x, y)] #![trigger aw(cg_edges(*g), x, y)]
                x != mi && y != mi ==> pc(cg_edges(*g), x, y) == pc(e0, x, y) && aw(cg_edges(*g), x, y) == aw(e0, x, y),
            forall|y: int| #![trigger pc(cg_edges(*g), mi, y)] #![trigger aw(cg_edges(*g), mi, y)]
                y != a && y != b ==> pc(cg_edges(*g), mi, y) == (if pc(e0, a as int, y) > 0 || cnt(nb@.take(k as int), y) > 0 { 1int } else { 0int })
                && aw(cg_edges(*g), mi, y) == aw(e0, a as int, y) + (if cnt(nb@.take(k as int), y) > 0 { aw(e0, b as int, y) } else { 0 }),
            pc(cg_edges(*g), mi, a as int) == 0,
            aw(cg_edges(*g), mi, a as int) == 0,
            pc(cg_edges(*g), mi, b as int) == 0,
            aw(cg_edges(*g), mi, b as int) == 0,
        decreases nb@.len() - k,
    {
        let nk = nb[k];
        let ghost es = cg_edges(*g);
        proof {
            lemma_cnt_take(nb@, k + 1, nk as int);
            lemma_cnt_take(nb@, k as int, nk as int);
            assert(nb@.take(k + 1) =~= nb@.take(k as int).push(nk));
            lemma_cnt_push(nb@.take(k as int), nk);
            lemma_cnt_at(nb@, k as int);
        }
        if nk != a {
            proof {
                lemma_cnt_take(nb@, k as int, mi);
                lemma_counts_nonneg(e0, b as int, nk as int);
                lemma_counts_nonneg(e0, a as int, nk as int);
                lemma_counts_nonneg(es, mi, nk as int);
                assert(nk as int != mi);
                assert(pc(e0, b as int, b as int) == 0);
                assert(nk != b);
                assert(pc(e0, b as int, nk as int) == 1);
            }
            let ei = match cg_find_edge(g, b, nk) {
                Some(i) => i,
                None => {
                    proof {
                        assert(false);
                    }
                    0
                },
            };
            let w1 = cg_edge_weight(g, ei);
            proof {
                lemma_joined(es, ei as int, b as int, nk as int);
                assert(a0[a as int][nk as int] == aw(e0, a as int, nk as int));
                assert(a0[b as int][nk as int] == aw(e0, b as int, nk as int));
            }
            let mut w = w1;
            match cg_find_edge(g, a, nk) {
                Some(ae) => {
                    let w2 = cg_edge_weight(g, ae);
                    proof {
                        lemma_joined(es, ae as int, a as int, nk as int);
                    }
                    w = w + w2;
                },
                None => {},
            }
            assert(w == aw(e0, a as int, nk as int) + aw(e0, b as int, nk as int));
            cg_update_edge(g, m, nk, w);
            proof {
                let en = cg_edges(*g);
                if pc(es, mi, nk as int) == 0 {
                    lemma_push(es, (mi, nk as int, w));
                } else {
                    let i = choose|i: int| 0 <= i < es.len() && joins(#[trigger] es[i], mi, nk as int)
                        && en == es.update(i, (es[i].0, es[i].1, w));
                    lemma_update(es, i, (es[i].0, es[i].1, w));
                    lemma_joined(es, i, mi, nk as int);
                }
                assert forall|y: int| #![trigger pc(en, mi, y)] #![trigger aw(en, mi, y)]
                    y != a && y != b implies pc(en, mi, y) == (if pc(e0, a as int, y) > 0 || cnt(nb@.take(k + 1), y) > 0 { 1int } else { 0int })
                    && aw(en, mi, y) == aw(e0, a as int, y) + (if cnt(nb@.take(k + 1), y) > 0 { aw(e0, b as int, y) } else { 0 }) by {
                    assert(cnt(nb@.take(k + 1), y) == cnt(nb@.take(k as int), y) + (if nk == y { 1int } else { 0int }));
                    assert(pc(es, mi, y) == (if pc(e0, a as int, y) > 0 || cnt(nb@.take(k as int), y) > 0 { 1int } else { 0int }));
                }
            }
        }
        k += 1;
    }
    assert(nb@.take(nb@.len() as int) =~= nb@);
    let ghost e2 = cg_edges(*g);
    let ghost w2 = cg_weights(*g);
    proof {
        let (wm, am) = with_merged(w0, a0, a as int, b as int);
        assert forall|x: int, y: int| 0 <= x < n + 1 && 0 <= y < n + 1 implies
            #[trigger] aw(e2, x, y) == am[x][y] && pc(e2, x, y) == (if aw(e2, x, y) > 0 { 1int } else { 0int }) by {
            lemma_sym(e2, x, y);
            lemma_counts_nonneg(e0, a as int, y);
            lemma_counts_nonneg(e0, b as int, y);
            lemma_counts_nonneg(e0, a as int, x);
            lemma_counts_nonneg(e0, b as int, x);
            if y == mi {
                lemma_sym(ea, b as int, mi);
                lemma_untouched(e0, n, mi, b as int);
                lemma_sym(e0, b as int, mi);
                lemma_untouched(e0, n, mi, a as int);
                lemma_sym(e0, a as int, mi);
            }
            if x == mi {
                lemma_sym(ea, b as int, mi);
                lemma_untouched(e0, n, mi, b as int);
                lemma_sym(e0, b as int, mi);
                lemma_untouched(e0, n, mi, a as int);
                lemma_sym(e0, a as int, mi);
            }
        }
        assert(w2 == wm);
        assert(adj(e2, n + 1) =~= am) by {
            assert forall|x: int| 0 <= x < n + 1 implies #[trigger] adj(e2, n + 1)[x] =~= am[x] by {
                assert forall|y: int| 0 <= y < n + 1 implies adj(e2, n + 1)[x][y] == am[x][y] by {
                    assert(aw(e2, x, y) == am[x][y]);
                }
            }
        }
        assert(graph_ok(e2, n + 1)) by {
            assert forall|x: int, y: int| 0 <= x < n + 1 && 0 <= y < n + 1 implies
                #[trigger] pc(e2, x, y) == (if aw(e2, x, y) > 0 { 1int } else { 0int }) by {
                assert(aw(e2, x, y) == am[x][y]);
            }
            assert forall|x: int| 0 <= x < n + 1 implies #[trigger] aw(e2, x, x) == 0 by {
                assert(aw(e2, x, x) == am[x][x]);
            }
        }
    }
    cg_remove_node(g, a);
    let ghost e3 = cg_edges(*g);
    let ghost w3 = cg_weights(*g);
    proof {
        lemma_removed(e2, w2, e3, w3, a as int);
    }
    cg_remove_node(g, b);
    proof {
        lemma_removed(e3, w3, cg_edges(*g), cg_weights(*g), b as int);
    }
}

/// What the contract of `Graph::remove_node` gives: the graph stays simple,
/// and its weights are those of `swap_out`.
proof fn lemma_removed(e_old: Seq<EdgeV>, w_old: Seq<int>, e_new: Seq<EdgeV>, w_new: Seq<int>, i: int)
    requires
        graph_ok(e_old, w_old.len() as int),
        0 <= i < w_old.len(),
        w_new == w_old.update(i, w_old.last()).drop_last(),
        forall|k: int| 0 <= k < e_new.len() ==> 0 <= (#[trigger] e_new[k]).0 < w_old.len() - 1
            && 0 <= e_new[k].1 < w_old.len() - 1,
        forall|x: int, y: int| 0 <= x < w_old.len() - 1 && 0 <= y < w_old.len() - 1
            ==> #[trigger] pc(e_new, x, y) == pc(e_old, moved(x, i, w_old.len() as int), moved(y, i, w_old.len() as int))
            && aw(e_new, x, y) == aw(e_old, moved(x, i, w_old.len() as int), moved(y, i, w_old.len() as int)),
    ensures
        graph_ok(e_new, w_new.len() as int),
        (w_new, adj(e_new, w_new.len() as int)) == swap_out(w_old, adj(e_old, w_old.len() as int), i),
{
    let n = w_old.len() as int;
    let so = swap_out(w_old, adj(e_old, n), i);
    assert forall|x: int, y: int| 0 <= x < n - 1 && 0 <= y < n - 1 implies
        #[trigger] pc(e_new, x, y) == (if aw(e_new, x, y) > 0 { 1int } else { 0int }) by {
        assert(0 <= moved(x, i, n) < n && 0 <= moved(y, i, n) < n);
        assert(pc(e_old, moved(x, i, n), moved(y, i, n)) == (if aw(e_old, moved(x, i, n), moved(y, i, n)) > 0 { 1int } else { 0int }));
    }
    assert forall|x: int| 0 <= x < n - 1 implies #[trigger] aw(e_new, x, x) == 0 by {
        assert(pc(e_new, x, x) == pc(e_old, moved(x, i, n), moved(x, i, n)));
        assert(0 <= moved(x, i, n) < n);
        assert(aw(e_old, moved(x, i, n), moved(x, i, n)) == 0);
    }
    assert(adj(e_new, n - 1) =~= so.1) by {
        assert forall|x: int| 0 <= x < n - 1 implies #[trigger] adj(e_new, n - 1)[x] =~= so.1[x] by {
            assert forall|y: int| 0 <= y < n - 1 implies adj(e_new, n - 1)[x][y] == so.1[x][y] by {
                assert(pc(e_new, x, y) == pc(e_old, moved(x, i, n), moved(y, i, n)));
                assert(0 <= moved(x, i, n) < n && 0 <= moved(y, i, n) < n);
            }
        }
    }
}

/// `t` is one of the nodes of `s`.
pub open spec fn in_set(s: Set<usize>, t: int) -> bool {
    0 <= t <= usize::MAX && s.contains(t as usize)
}

/// Membership in `s`, as a predicate on nodes.
pub open spec fn member(s: Set<usize>) -> spec_fn(int) -> bool {
    |t: int| in_set(s, t)
}

/// Every node.
pub open spec fn every() -> spec_fn(int) -> bool {
    |t: int| true
}

/// The weight between node `n` and the nodes of `s`.
pub open spec fn conn(mx: Seq<Seq<int>>, n: int, s: Set<usize>) -> int {
    rsum(mx[n], member(s), mx.len() as int)
}

/// The total weight at node `n`.
pub open spec fn degree(mx: Seq<Seq<int>>, n: int) -> int {
    rsum(mx[n], every(), mx.len() as int)
}

/// Over the first `k` nodes: the largest weight to the nodes of `s` of a
/// node outside `s`, and the first node outside `s` that has it, where it
/// is more than nothing.
pub open spec fn best(mx: Seq<Seq<int>>, s: Set<usize>, k: int) -> (int, Option<int>)
    decreases k,
{
    if k <= 0 {
        (0, None)
    } else {
        let (w, r) = best(mx, s, k - 1);
        let c = conn(mx, k - 1, s);
        if !in_set(s, k - 1) && w < c { (c, Some(k - 1)) } else { (w, r) }
    }
}

/// The node outside `s` most tightly connected to it: the first of those
/// with the largest weight to `s`, if that is more than nothing.
pub open spec fn tightest(mx: Seq<Seq<int>>, s: Set<usize>) -> Option<int> {
    best(mx, s, mx.len() as int).1
}

/// Every row of the matrix sums to a `usize`, and no entry is negative.
pub open spec fn rows_fit(mx: Seq<Seq<int>>) -> bool {
    &&& forall|x: int, y: int| 0 <= x < mx.len() && 0 <= y < mx.len() ==> #[trigger] mx[x][y] >= 0
    &&& forall|x: int| 0 <= x < mx.len() ==> #[trigger] degree(mx, x) <= usize::MAX
}

proof fn lemma_rsum_point(row: Seq<int>, s: spec_fn(int) -> bool, k: int, t: int, w: int)
    requires
        0 <= t < row.len(),
        k <= row.len(),
    ensures
        rsum(row.update(t, row[t] + w), s, k) == rsum(row, s, k) + (if t < k && s(t) { w } else { 0 }),
    decreases k,
{
    if k > 0 {
        lemma_rsum_point(row, s, k - 1, t, w);
    }
}

proof fn lemma_rsum_mono(row: Seq<int>, s: spec_fn(int) -> bool, k: int)
    requires
        k <= row.len(),
        forall|t: int| 0 <= t < k ==> #[trigger] row[t] >= 0,
    ensures
        0 <= rsum(row, s, k) <= rsum(row, every(), k),
    decreases k,
{
    if k > 0 {
        lemma_rsum_mono(row, s, k - 1);
    }
}

/// The row that a list of (other end, weight) entries gives.
pub open spec fn list_row(l: Seq<(usize, usize)>, n: int) -> Seq<int> {
    Seq::new(n as nat, |t: int| lsum_at(l, t))
}

proof fn lemma_regroup(l: Seq<(usize, usize)>, s: spec_fn(int) -> bool, n: int)
    requires
        n >= 0,
        forall|i: int| 0 <= i < l.len() ==> (#[trigger] l[i]).0 < n,
    ensures
        lsum_in(l, s) == rsum(list_row(l, n), s, n),
    decreases l.len(),
{
    if l.len() == 0 {
        lemma_rsum_zero(list_row(l, n), s, n);
    } else {
        let p = l.drop_last();
        let e = l.last();
        assert(l[l.len() - 1] == e);
        lemma_regroup(p, s, n);
        assert(list_row(l, n) =~= list_row(p, n).update(e.0 as int, list_row(p, n)[e.0 as int] + e.1));
        lemma_rsum_point(list_row(p, n), s, n, e.0 as int, e.1 as int);
    }
}

proof fn lemma_rsum_zero(row: Seq<int>, s: spec_fn(int) -> bool, k: int)
    requires
        forall|t: int| 0 <= t < k ==> #[trigger] row[t] == 0,
    ensures
        rsum(row, s, k) == 0,
    decreases k,
{
    if k > 0 {
        lemma_rsum_zero(row, s, k - 1);
    }
}

proof fn lemma_lsum_prefix(l: Seq<(usize, usize)>, s: spec_fn(int) -> bool, j: int)
    requires
        0 <= j <= l.len(),
    ensures
        0 <= lsum_in(l.take(j), s) <= lsum_in(l, s),
    decreases l.len() - j,
{
    if j < l.len() {
        lemma_lsum_prefix(l, s, j + 1);
        lemma_lsum_nonneg(l.take(j), s);
        assert(l.take(j + 1).drop_last() =~= l.take(j));
    } else {
        assert(l.take(j) =~= l);
        lemma_lsum_nonneg(l, s);
    }
}

proof fn lemma_lsum_nonneg(l: Seq<(usize, usize)>, s: spec_fn(int) -> bool)
    ensures
        lsum_in(l, s) >= 0,
    decreases l.len(),
{
    if l.len() > 0 {
        lemma_lsum_nonneg(l.drop_last(), s);
    }
}

proof fn lemma_best(mx: Seq<Seq<int>>, s: Set<usize>, k: int)
    ensures
        best(mx, s, k).0 >= 0,
        best(mx, s, k).1 matches Some(r) ==> 0 <= r < k && !in_set(s, r),
    decreases k,
{
    if k > 0 {
        lemma_best(mx, s, k - 1);
    }
}

/// The weight at `n` to the nodes of `s`, added up over the edges at `n`.
#[verifier::loop_isolation(false)]
fn weight_into(g: &UnGraph<usize, usize>, n: usize, set: &HashSet<usize>) -> (res: usize)
    requires
        graph_ok(cg_edges(*g), cg_weights(*g).len() as int),
        rows_fit(adj(cg_edges(*g), cg_weights(*g).len() as int)),
        n < cg_weights(*g).len(),
    ensures
        res == conn(adj(cg_edges(*g), cg_weights(*g).len() as int), n as int, set@),
{
    let ghost nn = cg_weights(*g).len() as int;
    let ghost mx = adj(cg_edges(*g), nn);
    let ghost sp = member(set@);
    let es = cg_edges_of(g, n);
    proof {
        lemma_regroup(es@, sp, nn);
        assert(list_row(es@, nn) =~= mx[n as int]);
        lemma_rsum_mono(mx[n as int], sp, nn);
        assert(degree(mx, n as int) <= usize::MAX);
    }
    let mut w: usize = 0;
    let mut j: usize = 0;
    while j < es.len()
        invariant
            j <= es@.len(),
            w == lsum_in(es@.take(j as int), sp),
            lsum_in(es@, sp) <= usize::MAX,
        decreases es@.len() - j,
    {
        let (t, ew) = es[j];
        proof {
            assert(es@.take(j + 1).drop_last() =~= es@.take(j as int));
            assert(es@.take(j + 1).last() == (t, ew));
            lemma_lsum_prefix(es@, sp, j + 1);
        }
        if set.contains(&t) {
            w = w + ew;
        }
        j += 1;
    }
    assert(es@.take(es@.len() as int) =~= es@);
    w
}

/// The node outside `set` most tightly connected to it (see `tightest`).
#[verifier::loop_isolation(false)]
pub fn most_tightly_connected(g: &UnGraph<usize, usize>, set: &HashSet<usize>) -> (res: usize)
    requires
        graph_ok(cg_edges(*g), cg_weights(*g).len() as int),
        rows_fit(adj(cg_edges(*g), cg_weights(*g).len() as int)),
        tightest(adj(cg_edges(*g), cg_weights(*g).len() as int), set@) is Some,
    ensures
        tightest(adj(cg_edges(*g), cg_weights(*g).len() as int), set@) == Some(res as int),
{
    let ghost nn = cg_weights(*g).len() as int;
    let ghost mx = adj(cg_edges(*g), nn);
    let count = cg_node_count(g);
    let mut ret: Option<usize> = None;
    let mut w: usize = 0;
    let mut n: usize = 0;
    while n < count
        invariant
            count == nn,
            mx == adj(cg_edges(*g), nn),
            graph_ok(cg_edges(*g), nn),
            rows_fit(mx),
            n <= count,
            best(mx, set@, n as int).0 == w as int,
            best(mx, set@, n as int).1 == match ret { Some(r) => Some(r as int), None => None::<int> },
        decreases count - n,
    {
        if !set.contains(&n) {
            let w_n = weight_into(g, n, set);
            if w < w_n {
                w = w_n;
                ret = Some(n);
            }
        }
        n += 1;
    }
    match ret {
        Some(r) => r,
        None => {
            proof {
                assert(false);
            }
            0
        },
    }
}

/// The nodes added one after the other to `order` and `s`, each the one
/// most tightly connected to those before, for `steps` more steps; `None`
/// where no node is connected to them.
pub open spec fn grow(mx: Seq<Seq<int>>, s: Set<usize>, order: Seq<usize>, steps: nat) -> Option<Seq<usize>>
    decreases steps,
{
    if steps == 0 {
        Some(order)
    } else {
        match tightest(mx, s) {
            Some(m) => grow(mx, s.insert(m as usize), order.push(m as usize), (steps - 1) as nat),
            None => None,
        }
    }
}

/// The order in which a phase from node `a` adds all nodes.
pub open spec fn phase_order(mx: Seq<Seq<int>>, a: usize) -> Option<Seq<usize>> {
    grow(mx, set![a], seq![a], (mx.len() - 1) as nat)
}

/// The total weight of the first `k` nodes of `ord` other than `x`.
pub open spec fn osum(ws: Seq<int>, ord: Seq<usize>, x: int, k: int) -> int
    decreases k,
{
    if k <= 0 { 0 } else { osum(ws, ord, x, k - 1) + if ord[k - 1] != x { ws[ord[k - 1] as int] } else { 0 } }
}

/// A phase from node `a` can run: at least two nodes, weights that are not
/// negative, rows whose sums fit, every node reached, and sums that fit.
pub open spec fn phase_ok(ws: Seq<int>, mx: Seq<Seq<int>>, a: usize) -> bool {
    let n = ws.len() as int;
    &&& n >= 2
    &&& a < n
    &&& mx.len() == n
    &&& forall|i: int| 0 <= i < n ==> #[trigger] ws[i] >= 0
    &&& rows_fit(mx)
    &&& phase_order(mx, a) matches Some(ord)
        && osum(ws, ord, ord[n - 1] as int, n) <= usize::MAX
        && merge_fits(ws, mx, ord[n - 2] as int, ord[n - 1] as int)
}

/// What a phase from node `a` gives: the weight at the node added last, its
/// own weight, the weight of the others, and the graph with the last two
/// nodes merged.
pub open spec fn phase_result(ws: Seq<int>, mx: Seq<Seq<int>>, a: usize) -> (int, int, int, Seq<int>, Seq<Seq<int>>) {
    let n = ws.len() as int;
    match phase_order(mx, a) {
        Some(ord) => {
            let n1 = ord[n - 2] as int;
            let n2 = ord[n - 1] as int;
            let (w2, m2) = merged(ws, mx, n1, n2);
            (degree(mx, n2), ws[n2], osum(ws, ord, n2, n), w2, m2)
        },
        None => (0, 0, 0, ws, mx),
    }
}

proof fn lemma_grow(mx: Seq<Seq<int>>, s: Set<usize>, order: Seq<usize>, steps: nat)
    requires
        order.no_duplicates(),
        s == order.to_set(),
        mx.len() <= usize::MAX,
        forall|i: int| 0 <= i < order.len() ==> #[trigger] order[i] < mx.len(),
    ensures
        grow(mx, s, order, steps) matches Some(r) ==> r.len() == order.len() + steps && r.no_duplicates()
            && (forall|i: int| 0 <= i < r.len() ==> #[trigger] r[i] < mx.len()),
    decreases steps,
{
    if steps > 0 {
        if let Some(m) = tightest(mx, s) {
            lemma_best(mx, s, mx.len() as int);
            let o2 = order.push(m as usize);
            assert(!s.contains(m as usize));
            assert(!order.contains(m as usize));
            assert(o2.to_set() =~= s.insert(m as usize)) by {
                order.lemma_push_to_set_commute(m as usize);
            }
            assert(o2.no_duplicates()) by {
                assert forall|i: int, j: int| 0 <= i < o2.len() && 0 <= j < o2.len() && i != j implies o2[i] != o2[j] by {
                    if i == order.len() as int {
                        assert(order[j] == o2[j]);
                    } else if j == order.len() as int {
                        assert(order[i] == o2[i]);
                    }
                }
            }
            lemma_grow(mx, s.insert(m as usize), o2, (steps - 1) as nat);
        }
    }
}

proof fn lemma_osum_step(ws: Seq<int>, ord: Seq<usize>, x: int, k: int)
    requires
        0 <= k,
    ensures
        osum(ws, ord, x, k + 1) == osum(ws, ord, x, k) + if ord[k] != x { ws[ord[k] as int] } else { 0 },
{
}

proof fn lemma_osum_mono(ws: Seq<int>, ord: Seq<usize>, x: int, j: int, k: int)
    requires
        0 <= j <= k <= ord.len(),
        forall|i: int| 0 <= i < ord.len() ==> #[trigger] ord[i] < ws.len(),
        forall|i: int| 0 <= i < ws.len() ==> #[trigger] ws[i] >= 0,
    ensures
        0 <= osum(ws, ord, x, j) <= osum(ws, ord, x, k),
    decreases k,
{
    if k > 0 {
        if j < k {
            lemma_osum_mono(ws, ord, x, j, k - 1);
            assert(ws[ord[k - 1] as int] >= 0);
        } else {
            lemma_osum_mono(ws, ord, x, j - 1, k - 1);
            assert(ws[ord[k - 1] as int] >= 0);
        }
    }
}

/// One phase: adds the nodes from `a` on, each the one most tightly
/// connected to those before; returns the weight at the node added last,
/// its weight and the weight of the others, and merges the last two (see
/// `phase_result`).
#[verifier::loop_isolation(false)]
pub fn minimum_cut_phase(g: &mut UnGraph<usize, usize>, a: usize) -> (res: (usize, usize, usize))
    requires
        graph_ok(cg_edges(*old(g)), cg_weights(*old(g)).len() as int),
        phase_ok(cg_weights(*old(g)), adj(cg_edges(*old(g)), cg_weights(*old(g)).len() as int), a),
        cg_weights(*old(g)).len() + 1 < u32::MAX,
        cg_edges(*old(g)).len() + 2 * cg_weights(*old(g)).len() + 2 < u32::MAX,
    ensures
        graph_ok(cg_edges(*final(g)), cg_weights(*final(g)).len() as int),
        cg_edges(*final(g)).len() <= cg_edges(*old(g)).len() + 2 * cg_weights(*old(g)).len() + 2,
        cg_weights(*final(g)).len() == cg_weights(*old(g)).len() - 1,
        ({
            let p = phase_result(cg_weights(*old(g)), adj(cg_edges(*old(g)), cg_weights(*old(g)).len() as int), a);
            &&& res.0 == p.0
            &&& res.1 == p.1
            &&& res.2 == p.2
            &&& cg_weights(*final(g)) == p.3
            &&& adj(cg_edges(*final(g)), cg_weights(*final(g)).len() as int) == p.4
        }),
        has_cut(cg_weights(*old(g)), cg_edges(*old(g)), res.0 as int, res.1 as int, res.2 as int),
{
    proof {
        let ws0 = cg_weights(*g);
        let es0 = cg_edges(*g);
        lemma_grouped_start(ws0, es0);
        lemma_phase_cut(ws0, es0, ident(ws0.len() as int), ws0, adj(es0, ws0.len() as int), a);
    }
    let ghost w0 = cg_weights(*g);
    let ghost nn = w0.len() as int;
    let ghost mx = adj(cg_edges(*g), nn);
    let ghost ord = phase_order(mx, a).unwrap();
    let mut set: HashSet<usize> = HashSet::new();
    let mut order: Vec<usize> = Vec::new();
    order.push(a);
    set.insert(a);
    proof {
        assert(order@ =~= seq![a]);
        assert(set@ =~= set![a]);
        assert(seq![a].to_set() =~= set![a]) by {
            Seq::<usize>::empty().lemma_push_to_set_commute(a);
            assert(Seq::<usize>::empty().push(a) =~= seq![a]);
            assert(Seq::<usize>::empty().to_set() =~= Set::<usize>::empty());
        }
        assert(order@.no_duplicates());
        order@.unique_seq_to_set();
    }
    let count = cg_node_count(g);
    while set.len() != count
        invariant
            count == nn,
            1 <= order@.len() <= nn,
            set@ == order@.to_set(),
            order@.no_duplicates(),
            forall|i: int| 0 <= i < order@.len() ==> #[trigger] order@[i] < nn,
            set@.len() == order@.len(),
            grow(mx, set@, order@, (nn - order@.len()) as nat) == Some(ord),
            cg_weights(*g) == w0,
            mx == adj(cg_edges(*g), nn),
        decreases nn - order@.len(),
    {
        proof {
            order@.unique_seq_to_set();
            lemma_best(mx, set@, nn);
        }
        let m = most_tightly_connected(g, &set);
        let ghost before = order@;
        set.insert(m);
        order.push(m);
        proof {
            assert(!before.contains(m));
            before.lemma_push_to_set_commute(m);
            assert(order@.no_duplicates()) by {
                assert forall|i: int, j: int| 0 <= i < order@.len() && 0 <= j < order@.len() && i != j implies order@[i] != order@[j] by {
                    if i == before.len() as int {
                        assert(before[j] == order@[j]);
                    } else if j == before.len() as int {
                        assert(before[i] == order@[i]);
                    }
                }
            }
            order@.unique_seq_to_set();
        }
    }
    proof {
        lemma_grow(mx, set![a], seq![a], (nn - 1) as nat);
    }
    let n1 = order[order.len() - 2];
    let n2 = order[order.len() - 1];
    let es = cg_edges_of(g, n2);
    proof {
        lemma_regroup(es@, every(), nn);
        assert(list_row(es@, nn) =~= mx[n2 as int]);
        assert(degree(mx, n2 as int) <= usize::MAX);
    }
    let mut cut: usize = 0;
    let mut j: usize = 0;
    while j < es.len()
        invariant
            j <= es@.len(),
            cut == lsum_in(es@.take(j as int), every()),
            lsum_in(es@, every()) <= usize::MAX,
        decreases es@.len() - j,
    {
        proof {
            assert(es@.take(j + 1).drop_last() =~= es@.take(j as int));
            lemma_lsum_prefix(es@, every(), j + 1);
        }
        cut = cut + es[j].1;
        j += 1;
    }
    assert(es@.take(es@.len() as int) =~= es@);
    let c1 = cg_node_weight(g, n2);
    let mut c2: usize = 0;
    let mut i: usize = 0;
    while i < order.len()
        invariant
            i <= order@.len(),
            order@ == ord,
            c2 == osum(w0, ord, n2 as int, i as int),
        decreases order@.len() - i,
    {
        proof {
            lemma_osum_mono(w0, ord, n2 as int, i + 1, nn);
            lemma_osum_step(w0, ord, n2 as int, i as int);
        }
        if order[i] != n2 {
            c2 = c2 + cg_node_weight(g, order[i]);
        }
        i += 1;
    }
    merge_nodes(g, n1, n2);
    (cut, c1, c2)
}

/// Phases from node 0 until one node is left or the smallest cut found so
/// far weighs at most `stop`: the smallest cut and the two weights of the
/// phase that found it first (`min`, `s1`, `s2` before the next phase).
/// `None` where a phase cannot run.
pub open spec fn cut_run(ws: Seq<int>, mx: Seq<Seq<int>>, stop: int, min: int, s1: int, s2: int) -> Option<(int, int, int)>
    decreases ws.len(),
{
    if ws.len() <= 1 {
        Some((min, s1, s2))
    } else if !phase_ok(ws, mx, 0) {
        None
    } else {
        let p = phase_result(ws, mx, 0);
        let (m2, t1, t2) = if min > p.0 { (p.0, p.1, p.2) } else { (min, s1, s2) };
        if m2 <= stop {
            Some((m2, t1, t2))
        } else if p.3.len() < ws.len() {
            cut_run(p.3, p.4, stop, m2, t1, t2)
        } else {
            None
        }
    }
}

/// The total weight of the nodes.
pub open spec fn wsum(ws: Seq<int>) -> int
    decreases ws.len(),
{
    if ws.len() == 0 { 0 } else { wsum(ws.drop_last()) + ws.last() }
}

/// The total weight of the first `k` nodes of `ord`.
pub open spec fn psum(ws: Seq<int>, ord: Seq<usize>, k: int) -> int
    decreases k,
{
    if k <= 0 { 0 } else { psum(ws, ord, k - 1) + ws[ord[k - 1] as int] }
}

proof fn lemma_wsum_update(ws: Seq<int>, i: int, v: int)
    requires
        0 <= i < ws.len(),
    ensures
        wsum(ws.update(i, v)) == wsum(ws) - ws[i] + v,
    decreases ws.len(),
{
    if i < ws.len() - 1 {
        lemma_wsum_update(ws.drop_last(), i, v);
        assert(ws.update(i, v).drop_last() =~= ws.drop_last().update(i, v));
    } else {
        assert(ws.update(i, v).drop_last() =~= ws.drop_last());
    }
}

/// Taking node `i` out keeps all weight but its own.
proof fn lemma_wsum_swap_out(ws: Seq<int>, i: int)
    requires
        0 <= i < ws.len(),
    ensures
        wsum(ws.update(i, ws.last()).drop_last()) == wsum(ws) - ws[i],
{
    lemma_wsum_update(ws, i, ws.last());
    assert(ws.update(i, ws.last()).last() == ws.last());
}

/// Merging two nodes keeps the total weight.
proof fn lemma_wsum_merged(ws: Seq<int>, mx: Seq<Seq<int>>, a: int, b: int)
    requires
        0 <= a < ws.len(),
        0 <= b < ws.len(),
        a != b,
    ensures
        wsum(merged(ws, mx, a, b).0) == wsum(ws),
{
    let w1 = ws.push(ws[a] + ws[b]);
    assert(w1.drop_last() =~= ws);
    let w2 = w1.update(a, w1.last()).drop_last();
    lemma_wsum_swap_out(w1, a);
    assert(w2[b] == ws[b]);
    lemma_wsum_swap_out(w2, b);
}

proof fn lemma_psum_remove(ws: Seq<int>, ord: Seq<usize>, p: int, k: int)
    requires
        0 <= p < ord.len(),
        0 <= k <= ord.len(),
    ensures
        k <= p ==> psum(ws, ord, k) == psum(ws, ord.remove(p), k),
        k > p ==> psum(ws, ord, k) == psum(ws, ord.remove(p), k - 1) + ws[ord[p] as int],
    decreases k,
{
    if k > 0 {
        lemma_psum_remove(ws, ord, p, k - 1);
        if k - 1 < p {
            assert(ord.remove(p)[k - 1] == ord[k - 1]);
        } else if k - 1 > p {
            assert(ord.remove(p)[k - 2] == ord[k - 1]);
        }
    }
}

proof fn lemma_psum_below(ws: Seq<int>, ord: Seq<usize>, k: int)
    requires
        ws.len() >= 1,
        0 <= k <= ord.len(),
        forall|i: int| 0 <= i < ord.len() ==> #[trigger] ord[i] < ws.len() - 1,
    ensures
        psum(ws, ord, k) == psum(ws.drop_last(), ord, k),
    decreases k,
{
    if k > 0 {
        lemma_psum_below(ws, ord, k - 1);
        assert(ord[k - 1] < ws.len() - 1);
    }
}

/// Summed over an order of all nodes, the weights give the total weight.
proof fn lemma_psum_all(ws: Seq<int>, ord: Seq<usize>)
    requires
        ord.len() == ws.len(),
        ord.no_duplicates(),
        forall|i: int| 0 <= i < ord.len() ==> #[trigger] ord[i] < ws.len(),
    ensures
        psum(ws, ord, ord.len() as int) == wsum(ws),
    decreases ws.len(),
{
    let n = ws.len() as int;
    if n > 0 {
        let oi = ord.map_values(|u: usize| u as int);
        assert(oi.no_duplicates()) by {
            assert forall|i: int, j: int| 0 <= i < oi.len() && 0 <= j < oi.len() && i != j implies oi[i] != oi[j] by {
                assert(ord[i] != ord[j]);
            }
        }
        oi.unique_seq_to_set();
        vstd::set_lib::lemma_int_range(0, n);
        assert(oi.to_set().subset_of(vstd::set_lib::set_int_range(0, n))) by {
            assert forall|v: int| oi.to_set().contains(v) implies vstd::set_lib::set_int_range(0, n).contains(v) by {
                let i = choose|i: int| 0 <= i < oi.len() && oi[i] == v;
                assert(ord[i] < n);
            }
        }
        vstd::set_lib::lemma_subset_equality(oi.to_set(), vstd::set_lib::set_int_range(0, n));
        assert(vstd::set_lib::set_int_range(0, n).contains(n - 1));
        assert(oi.to_set().contains(n - 1));
        let p = choose|i: int| 0 <= i < oi.len() && oi[i] == n - 1;
        assert(ord[p] == n - 1);
        let o2 = ord.remove(p);
        assert(o2.no_duplicates()) by {
            assert forall|i: int, j: int| 0 <= i < o2.len() && 0 <= j < o2.len() && i != j implies o2[i] != o2[j] by {
                let i1 = if i < p { i } else { i + 1 };
                let j1 = if j < p { j } else { j + 1 };
                assert(o2[i] == ord[i1] && o2[j] == ord[j1]);
            }
        }
        assert forall|i: int| 0 <= i < o2.len() implies #[trigger] o2[i] < ws.len() - 1 by {
            let i1 = if i < p { i } else { i + 1 };
            assert(o2[i] == ord[i1]);
            assert(ord[i1] != ord[p]);
        }
        lemma_psum_remove(ws, ord, p, n);
        lemma_psum_below(ws, o2, n - 1);
        lemma_psum_all(ws.drop_last(), o2);
    }
}

/// The weights of all nodes of `ord` but `x` (which comes once, at `q`),
/// and that of `x`, together are the weight of all of `ord`.
proof fn lemma_osum_psum(ws: Seq<int>, ord: Seq<usize>, x: int, q: int, k: int)
    requires
        0 <= q < ord.len(),
        ord[q] == x,
        ord.no_duplicates(),
        0 <= k <= ord.len(),
    ensures
        osum(ws, ord, x, k) + (if k > q { ws[x] } else { 0 }) == psum(ws, ord, k),
    decreases k,
{
    if k > 0 {
        lemma_osum_psum(ws, ord, x, q, k - 1);
        if k - 1 != q {
            assert(ord[k - 1] != ord[q]);
        }
    }
}

/// Nodes of weight 1 each weigh as many as they are.
pub proof fn lemma_wsum_ones(n: int)
    requires
        n >= 0,
    ensures
        wsum(ones(n)) == n,
    decreases n,
{
    if n > 0 {
        assert(ones(n).drop_last() =~= ones(n - 1));
        lemma_wsum_ones(n - 1);
    }
}

/// Each phase splits the nodes in two: the weight of the node added last
/// and that of the others add up to the total weight; merging the last two
/// nodes keeps the total weight.
pub proof fn lemma_phase_total(ws: Seq<int>, mx: Seq<Seq<int>>, a: usize)
    requires
        phase_ok(ws, mx, a),
        ws.len() <= usize::MAX,
    ensures
        phase_result(ws, mx, a).1 + phase_result(ws, mx, a).2 == wsum(ws),
        wsum(phase_result(ws, mx, a).3) == wsum(ws),
{
    let n = ws.len() as int;
    let ord = phase_order(mx, a).unwrap();
    assert(seq![a].to_set() =~= set![a]) by {
        Seq::<usize>::empty().lemma_push_to_set_commute(a);
        assert(Seq::<usize>::empty().push(a) =~= seq![a]);
        assert(Seq::<usize>::empty().to_set() =~= Set::<usize>::empty());
    }
    assert(seq![a].no_duplicates());
    lemma_grow(mx, set![a], seq![a], (mx.len() - 1) as nat);
    lemma_psum_all(ws, ord);
    lemma_osum_psum(ws, ord, ord[n - 1] as int, n - 1, n);
    lemma_wsum_merged(ws, mx, ord[n - 2] as int, ord[n - 1] as int);
}

/// The two sides that the phases report together hold all the weight:
/// once a phase has been taken as the best so far, its two weights add up
/// to the total.
pub proof fn lemma_cut_run_total(ws: Seq<int>, mx: Seq<Seq<int>>, stop: int, min: int, s1: int, s2: int)
    requires
        min < usize::MAX ==> s1 + s2 == wsum(ws),
        ws.len() <= usize::MAX,
    ensures
        cut_run(ws, mx, stop, min, s1, s2) matches Some(r) ==> (r.0 < usize::MAX ==> r.1 + r.2 == wsum(ws)),
    decreases ws.len(),
{
    if ws.len() > 1 && phase_ok(ws, mx, 0) {
        let p = phase_result(ws, mx, 0);
        lemma_phase_total(ws, mx, 0);
        let (m2, t1, t2) = if min > p.0 { (p.0, p.1, p.2) } else { (min, s1, s2) };
        if m2 > stop && p.3.len() < ws.len() {
            lemma_cut_run_total(p.3, p.4, stop, m2, t1, t2);
        }
    }
}

/// The nodes that the grouping `g` puts into group `t`.
pub open spec fn group_of(g: Seq<int>, t: int) -> spec_fn(int) -> bool {
    |o: int| g[o] == t
}

/// The nodes outside `s`.
pub open spec fn other_side(s: spec_fn(int) -> bool) -> spec_fn(int) -> bool {
    |o: int| !s(o)
}

/// The total weight of the nodes below `k` in `s`.
pub open spec fn side_weight(ws0: Seq<int>, s: spec_fn(int) -> bool, k: int) -> int
    decreases k,
{
    if k <= 0 { 0 } else { side_weight(ws0, s, k - 1) + if s(k - 1) { ws0[k - 1] } else { 0 } }
}

/// The total weight of the edges with exactly one end in `s`.
pub open spec fn cut_of(es: Seq<EdgeV>, s: spec_fn(int) -> bool) -> int
    decreases es.len(),
{
    if es.len() == 0 {
        0
    } else {
        cut_of(es.drop_last(), s) + if s(es.last().0) != s(es.last().1) { es.last().2 as int } else { 0 }
    }
}

/// The total weight of the edges between group `a` and group `b`.
pub open spec fn link(g: Seq<int>, es: Seq<EdgeV>, a: int, b: int) -> int
    decreases es.len(),
{
    if es.len() == 0 {
        0
    } else {
        let e = es.last();
        link(g, es.drop_last(), a, b) + if (g[e.0] == a && g[e.1] == b) || (g[e.0] == b && g[e.1] == a) { e.2 as int } else { 0 }
    }
}

/// The total weight of the edges leaving group `t` for a group below `k`.
pub open spec fn cut_below(g: Seq<int>, es: Seq<EdgeV>, t: int, k: int) -> int
    decreases es.len(),
{
    if es.len() == 0 {
        0
    } else {
        let e = es.last();
        let other = if g[e.0] == t { g[e.1] } else { g[e.0] };
        cut_below(g, es.drop_last(), t, k) + if (g[e.0] == t) != (g[e.1] == t) && other < k { e.2 as int } else { 0 }
    }
}

/// Some node went into group `a`.
pub open spec fn holds_some(g: Seq<int>, a: int) -> bool {
    exists|o: int| 0 <= o < g.len() && #[trigger] g[o] == a
}

/// Every edge joins two of the first `n` nodes.
pub open spec fn ends_below(es: Seq<EdgeV>, n: int) -> bool {
    forall|i: int| 0 <= i < es.len() ==> 0 <= (#[trigger] es[i]).0 < n && 0 <= es[i].1 < n
}

/// The merged graph `(ws, mx)` groups the nodes of the graph `(ws0, es0)`:
/// node `o` went into node `g[o]`, every node holds some, its weight is the
/// weight of its group, and the weight between two nodes is that of the
/// edges between their groups.
pub open spec fn grouped(ws0: Seq<int>, es0: Seq<EdgeV>, g: Seq<int>, ws: Seq<int>, mx: Seq<Seq<int>>) -> bool {
    let n0 = ws0.len() as int;
    let n = ws.len() as int;
    &&& g.len() == n0
    &&& mx.len() == n
    &&& forall|x: int| 0 <= x < n ==> (#[trigger] mx[x]).len() == n
    &&& forall|o: int| 0 <= o < n0 ==> 0 <= #[trigger] g[o] < n
    &&& forall|a: int| 0 <= a < n ==> #[trigger] holds_some(g, a)
    &&& ends_below(es0, n0)
    &&& forall|a: int| 0 <= a < n ==> #[trigger] ws[a] == side_weight(ws0, group_of(g, a), n0)
    &&& forall|a: int, b: int| 0 <= a < n && 0 <= b < n ==> #[trigger] mx[a][b] == (if a == b { 0 } else { link(g, es0, a, b) })
    &&& wsum(ws) == wsum(ws0)
}

proof fn lemma_ends_below_drop(es: Seq<EdgeV>, n: int)
    requires
        ends_below(es, n),
        es.len() > 0,
    ensures
        ends_below(es.drop_last(), n),
        0 <= es.last().0 < n && 0 <= es.last().1 < n,
{
    assert forall|i: int| 0 <= i < es.drop_last().len() implies 0 <= (#[trigger] es.drop_last()[i]).0 < n && 0 <= es.drop_last()[i].1 < n by {
        assert(es.drop_last()[i] == es[i]);
    }
    assert(es.last() == es[es.len() - 1]);
}

proof fn lemma_cut_below_step(g: Seq<int>, es: Seq<EdgeV>, n0: int, t: int, k: int)
    requires
        ends_below(es, n0),
        g.len() == n0,
        k >= 0,
    ensures
        cut_below(g, es, t, k + 1) == cut_below(g, es, t, k) + (if k != t { link(g, es, t, k) } else { 0 }),
    decreases es.len(),
{
    if es.len() > 0 {
        lemma_ends_below_drop(es, n0);
        lemma_cut_below_step(g, es.drop_last(), n0, t, k);
    }
}

proof fn lemma_cut_below_ends(g: Seq<int>, es: Seq<EdgeV>, n0: int, n: int, t: int)
    requires
        ends_below(es, n0),
        g.len() == n0,
        forall|o: int| 0 <= o < n0 ==> 0 <= #[trigger] g[o] < n,
    ensures
        cut_below(g, es, t, 0) == 0,
        cut_below(g, es, t, n) == cut_of(es, group_of(g, t)),
    decreases es.len(),
{
    if es.len() > 0 {
        lemma_ends_below_drop(es, n0);
        lemma_cut_below_ends(g, es.drop_last(), n0, n, t);
        let e = es.last();
        assert(0 <= g[e.0] < n && 0 <= g[e.1] < n);
    }
}

/// In a grouped graph the weight at a node is the weight of the edges that
/// leave its group.
pub proof fn lemma_degree_cut(ws0: Seq<int>, es0: Seq<EdgeV>, g: Seq<int>, ws: Seq<int>, mx: Seq<Seq<int>>, t: int)
    requires
        grouped(ws0, es0, g, ws, mx),
        0 <= t < ws.len(),
    ensures
        degree(mx, t) == cut_of(es0, group_of(g, t)),
{
    let n = ws.len() as int;
    let n0 = ws0.len() as int;
    assert forall|k: int| 0 <= k <= n implies #[trigger] rsum(mx[t], every(), k) == cut_below(g, es0, t, k) by {
        lemma_rsum_cut(ws0, es0, g, ws, mx, t, k);
    }
    lemma_cut_below_ends(g, es0, n0, n, t);
}

proof fn lemma_rsum_cut(ws0: Seq<int>, es0: Seq<EdgeV>, g: Seq<int>, ws: Seq<int>, mx: Seq<Seq<int>>, t: int, k: int)
    requires
        grouped(ws0, es0, g, ws, mx),
        0 <= t < ws.len(),
        0 <= k <= ws.len(),
    ensures
        rsum(mx[t], every(), k) == cut_below(g, es0, t, k),
    decreases k,
{
    let n0 = ws0.len() as int;
    if k == 0 {
        lemma_cut_below_ends(g, es0, n0, ws.len() as int, t);
    } else {
        lemma_rsum_cut(ws0, es0, g, ws, mx, t, k - 1);
        lemma_cut_below_step(g, es0, n0, t, k - 1);
        assert(every()(k - 1));
        assert(mx[t][k - 1] == (if t == k - 1 { 0 } else { link(g, es0, t, k - 1) }));
    }
}

/// The weights of a side and of the rest add up to the total weight.
proof fn lemma_sides(ws0: Seq<int>, s: spec_fn(int) -> bool, k: int)
    requires
        0 <= k <= ws0.len(),
    ensures
        side_weight(ws0, s, k) + side_weight(ws0, other_side(s), k) == wsum(ws0.take(k)),
    decreases k,
{
    if k > 0 {
        lemma_sides(ws0, s, k - 1);
        assert(ws0.take(k).drop_last() =~= ws0.take(k - 1));
    }
}

/// Each node its own group.
pub open spec fn ident(n: int) -> Seq<int> {
    Seq::new(n as nat, |o: int| o)
}

proof fn lemma_side_single(ws0: Seq<int>, a: int, k: int)
    requires
        0 <= a,
        0 <= k <= ws0.len(),
        ws0.len() == ident(ws0.len() as int).len(),
    ensures
        side_weight(ws0, group_of(ident(ws0.len() as int), a), k) == if a < k { ws0[a] } else { 0 },
    decreases k,
{
    if k > 0 {
        lemma_side_single(ws0, a, k - 1);
        assert(group_of(ident(ws0.len() as int), a)(k - 1) == (k - 1 == a));
    }
}

proof fn lemma_aw_link(es: Seq<EdgeV>, n0: int, a: int, b: int)
    requires
        ends_below(es, n0),
        n0 >= 0,
    ensures
        aw(es, a, b) == link(ident(n0), es, a, b),
    decreases es.len(),
{
    if es.len() > 0 {
        lemma_ends_below_drop(es, n0);
        lemma_aw_link(es.drop_last(), n0, a, b);
        let e = es.last();
        assert(ident(n0)[e.0] == e.0 && ident(n0)[e.1] == e.1);
    }
}

/// The graph as read is grouped with each node its own group.
pub proof fn lemma_grouped_start(ws0: Seq<int>, es0: Seq<EdgeV>)
    requires
        graph_ok(es0, ws0.len() as int),
    ensures
        grouped(ws0, es0, ident(ws0.len() as int), ws0, adj(es0, ws0.len() as int)),
{
    let n0 = ws0.len() as int;
    let g = ident(n0);
    let mx = adj(es0, n0);
    assert forall|a: int| 0 <= a < n0 implies #[trigger] holds_some(g, a) by {
        assert(g[a] == a);
    }
    assert forall|a: int| 0 <= a < n0 implies #[trigger] ws0[a] == side_weight(ws0, group_of(g, a), n0) by {
        lemma_side_single(ws0, a, n0);
    }
    assert forall|a: int, b: int| 0 <= a < n0 && 0 <= b < n0 implies #[trigger] mx[a][b] == (if a == b { 0 } else { link(g, es0, a, b) }) by {
        lemma_aw_link(es0, n0, a, b);
    }
}

/// Where merging nodes `a` and `b` of `n` puts node `x`.
pub open spec fn new_place(x: int, a: int, b: int, n: int) -> int {
    let t = if x == a || x == b { n } else { x };
    let y = if t == n { a } else { t };
    if y == n - 1 { b } else { y }
}

/// The node before merging (`n` for the merged one) at place `z` after it.
pub open spec fn old_place(z: int, a: int, b: int, n: int) -> int {
    let y = if z == b { n - 1 } else { z };
    if y == a { n } else { y }
}

/// The grouping after merging nodes `a` and `b` of `n`.
pub open spec fn regroup(g: Seq<int>, a: int, b: int, n: int) -> Seq<int> {
    Seq::new(g.len(), |o: int| new_place(g[o], a, b, n))
}

proof fn lemma_places(a: int, b: int, n: int)
    requires
        0 <= a < n,
        0 <= b < n,
        a != b,
    ensures
        forall|x: int| 0 <= x < n ==> 0 <= #[trigger] new_place(x, a, b, n) < n - 1
            && old_place(new_place(x, a, b, n), a, b, n) == (if x == a || x == b { n } else { x }),
        forall|z: int| 0 <= z < n - 1 ==> 0 <= #[trigger] old_place(z, a, b, n) <= n
            && old_place(z, a, b, n) != a && old_place(z, a, b, n) != b
            && (old_place(z, a, b, n) == n ==> new_place(a, a, b, n) == z)
            && (old_place(z, a, b, n) < n ==> new_place(old_place(z, a, b, n), a, b, n) == z),
{
}

proof fn lemma_side_ext(ws0: Seq<int>, s1: spec_fn(int) -> bool, s2: spec_fn(int) -> bool, k: int)
    requires
        forall|o: int| 0 <= o < k ==> #[trigger] s1(o) == s2(o),
    ensures
        side_weight(ws0, s1, k) == side_weight(ws0, s2, k),
    decreases k,
{
    if k > 0 {
        lemma_side_ext(ws0, s1, s2, k - 1);
    }
}

proof fn lemma_side_union(ws0: Seq<int>, s: spec_fn(int) -> bool, s1: spec_fn(int) -> bool, s2: spec_fn(int) -> bool, k: int)
    requires
        forall|o: int| 0 <= o < k ==> #[trigger] s(o) == (s1(o) || s2(o)) && !(s1(o) && s2(o)),
    ensures
        side_weight(ws0, s, k) == side_weight(ws0, s1, k) + side_weight(ws0, s2, k),
    decreases k,
{
    if k > 0 {
        lemma_side_union(ws0, s, s1, s2, k - 1);
    }
}

proof fn lemma_link_relabel(g: Seq<int>, g2: Seq<int>, es: Seq<EdgeV>, n0: int, a1: int, b1: int, a2: int, b2: int)
    requires
        ends_below(es, n0),
        g.len() == n0,
        g2.len() == n0,
        forall|o: int| 0 <= o < n0 ==> (#[trigger] g2[o] == a2 <==> g[o] == a1) && (g2[o] == b2 <==> g[o] == b1),
    ensures
        link(g2, es, a2, b2) == link(g, es, a1, b1),
    decreases es.len(),
{
    if es.len() > 0 {
        lemma_ends_below_drop(es, n0);
        lemma_link_relabel(g, g2, es.drop_last(), n0, a1, b1, a2, b2);
    }
}

proof fn lemma_link_sym(g: Seq<int>, es: Seq<EdgeV>, a: int, b: int)
    ensures
        link(g, es, a, b) == link(g, es, b, a),
    decreases es.len(),
{
    if es.len() > 0 {
        lemma_link_sym(g, es.drop_last(), a, b);
    }
}

proof fn lemma_link_merge(g: Seq<int>, g2: Seq<int>, es: Seq<EdgeV>, n0: int, a: int, b: int, y: int, m: int, z: int)
    requires
        ends_below(es, n0),
        g.len() == n0,
        g2.len() == n0,
        a != b,
        y != a,
        y != b,
        forall|o: int| 0 <= o < n0 ==> (#[trigger] g2[o] == m <==> (g[o] == a || g[o] == b)) && (g2[o] == z <==> g[o] == y),
    ensures
        link(g2, es, m, z) == link(g, es, a, y) + link(g, es, b, y),
    decreases es.len(),
{
    if es.len() > 0 {
        lemma_ends_below_drop(es, n0);
        lemma_link_merge(g, g2, es.drop_last(), n0, a, b, y, m, z);
    }
}

proof fn lemma_regroup_at(g: Seq<int>, a: int, b: int, n: int, o: int, z: int)
    requires
        0 <= a < n,
        0 <= b < n,
        a != b,
        0 <= o < g.len(),
        0 <= g[o] < n,
        0 <= z < n - 1,
    ensures
        0 <= regroup(g, a, b, n)[o] < n - 1,
        (regroup(g, a, b, n)[o] == z) == (if old_place(z, a, b, n) == n { g[o] == a || g[o] == b } else { g[o] == old_place(z, a, b, n) }),
{
    lemma_places(a, b, n);
    let x = g[o];
    assert(regroup(g, a, b, n)[o] == new_place(x, a, b, n));
    assert(0 <= new_place(x, a, b, n) < n - 1);
    assert(0 <= old_place(z, a, b, n) <= n);
}

/// Merging two nodes of a grouped graph keeps it grouped: the merged node
/// holds both their groups.
#[verifier::rlimit(80)]
pub proof fn lemma_grouped_merge(ws0: Seq<int>, es0: Seq<EdgeV>, g: Seq<int>, ws: Seq<int>, mx: Seq<Seq<int>>, a: int, b: int)
    requires
        grouped(ws0, es0, g, ws, mx),
        0 <= a < ws.len(),
        0 <= b < ws.len(),
        a != b,
    ensures
        grouped(ws0, es0, regroup(g, a, b, ws.len() as int), merged(ws, mx, a, b).0, merged(ws, mx, a, b).1),
{
    let n = ws.len() as int;
    let n0 = ws0.len() as int;
    let g2 = regroup(g, a, b, n);
    let (w1, m1) = with_merged(ws, mx, a, b);
    let (w2, m2) = swap_out(w1, m1, a);
    let (w3, m3) = swap_out(w2, m2, b);
    assert((w3, m3) == merged(ws, mx, a, b));
    lemma_places(a, b, n);
    assert(w3.len() == n - 1);
    assert(m3.len() == n - 1);
    assert forall|z: int| 0 <= z < n - 1 implies #[trigger] w3[z] == w1[old_place(z, a, b, n)] && m3[z].len() == n - 1 by {
        let y = if z == b { n - 1 } else { z };
        assert(w3[z] == w2[y]);
        assert(w2[y] == w1[if y == a { n } else { y }]);
    }
    assert forall|z1: int, z2: int| 0 <= z1 < n - 1 && 0 <= z2 < n - 1 implies #[trigger] m3[z1][z2] == m1[old_place(z1, a, b, n)][old_place(z2, a, b, n)] by {
        let y1 = if z1 == b { n - 1 } else { z1 };
        let y2 = if z2 == b { n - 1 } else { z2 };
        assert(m3[z1][z2] == m2[y1][y2]);
        assert(m2[y1][y2] == m1[if y1 == a { n } else { y1 }][if y2 == a { n } else { y2 }]);
    }
    assert forall|o: int| 0 <= o < n0 implies 0 <= #[trigger] g2[o] < n - 1 by {
        assert(0 <= g[o] < n);
        lemma_regroup_at(g, a, b, n, o, 0);
    }
    // each new group is an old one, or the two merged ones
    assert forall|z: int| 0 <= z < n - 1 implies #[trigger] holds_some(g2, z) by {
        let x = old_place(z, a, b, n);
        let src = if x == n { a } else { x };
        assert(holds_some(g, src));
        let o = choose|o: int| 0 <= o < g.len() && #[trigger] g[o] == src;
        lemma_regroup_at(g, a, b, n, o, z);
    }
    assert forall|z: int| 0 <= z < n - 1 implies #[trigger] w3[z] == side_weight(ws0, group_of(g2, z), n0) by {
        let x = old_place(z, a, b, n);
        assert forall|o: int| 0 <= o < n0 implies #[trigger] group_of(g2, z)(o) == (if x == n { g[o] == a || g[o] == b } else { g[o] == x }) by {
            assert(0 <= g[o] < n);
            lemma_regroup_at(g, a, b, n, o, z);
        }
        if x == n {
            assert(w1[n] == ws[a] + ws[b]);
            assert(ws[a] == side_weight(ws0, group_of(g, a), n0));
            assert(ws[b] == side_weight(ws0, group_of(g, b), n0));
            lemma_side_union(ws0, group_of(g2, z), group_of(g, a), group_of(g, b), n0);
        } else {
            assert(w1[x] == ws[x]);
            assert(ws[x] == side_weight(ws0, group_of(g, x), n0));
            lemma_side_ext(ws0, group_of(g2, z), group_of(g, x), n0);
        }
    }
    assert forall|z1: int, z2: int| 0 <= z1 < n - 1 && 0 <= z2 < n - 1 implies #[trigger] m3[z1][z2] == (if z1 == z2 { 0 } else { link(g2, es0, z1, z2) }) by {
        let x1 = old_place(z1, a, b, n);
        let x2 = old_place(z2, a, b, n);
        assert(m3[z1][z2] == m1[x1][x2]);
        if z1 == z2 {
            if x1 < n {
                assert(mx[x1][x1] == 0);
            }
        } else {
            assert(x1 != x2);
            assert forall|o: int| 0 <= o < n0 implies (#[trigger] g2[o] == z1) == (if x1 == n { g[o] == a || g[o] == b } else { g[o] == x1 })
                && (g2[o] == z2) == (if x2 == n { g[o] == a || g[o] == b } else { g[o] == x2 }) by {
                assert(0 <= g[o] < n);
                lemma_regroup_at(g, a, b, n, o, z1);
                lemma_regroup_at(g, a, b, n, o, z2);
            }
            if x1 < n && x2 < n {
                assert(mx[x1][x2] == link(g, es0, x1, x2));
                lemma_link_relabel(g, g2, es0, n0, x1, x2, z1, z2);
            } else if x1 == n {
                assert(m1[n][x2] == mx[a][x2] + mx[b][x2]);
                assert(mx[a][x2] == link(g, es0, a, x2));
                assert(mx[b][x2] == link(g, es0, b, x2));
                lemma_link_merge(g, g2, es0, n0, a, b, x2, z1, z2);
            } else {
                assert(m1[x1][n] == mx[a][x1] + mx[b][x1]);
                assert(mx[a][x1] == link(g, es0, a, x1));
                assert(mx[b][x1] == link(g, es0, b, x1));
                lemma_link_merge(g, g2, es0, n0, a, b, x1, z2, z1);
                lemma_link_sym(g2, es0, z1, z2);
            }
        }
    }
    lemma_wsum_merged(ws, mx, a, b);
}

proof fn lemma_phase_ends(ws: Seq<int>, mx: Seq<Seq<int>>, a: usize)
    requires
        phase_ok(ws, mx, a),
        ws.len() <= usize::MAX,
    ensures
        phase_order(mx, a) matches Some(ord) && ord.len() == ws.len() && ord[ws.len() - 1] < ws.len()
            && ord[ws.len() - 2] < ws.len() && ord[ws.len() - 1] != ord[ws.len() - 2],
{
    assert(seq![a].to_set() =~= set![a]) by {
        Seq::<usize>::empty().lemma_push_to_set_commute(a);
        assert(Seq::<usize>::empty().push(a) =~= seq![a]);
        assert(Seq::<usize>::empty().to_set() =~= Set::<usize>::empty());
    }
    assert(seq![a].no_duplicates());
    lemma_grow(mx, set![a], seq![a], (mx.len() - 1) as nat);
}

/// Some node below `n` is in `s`.
pub open spec fn some_in(s: spec_fn(int) -> bool, n: int) -> bool {
    exists|o: int| 0 <= o < n && #[trigger] s(o)
}

/// `s` is a side of a cut of the graph `(ws0, es0)`: it holds some node and
/// misses some, its nodes weigh `w1` and the others `w2`, and the edges with
/// exactly one end in it weigh `c`.
pub open spec fn is_cut(ws0: Seq<int>, es0: Seq<EdgeV>, s: spec_fn(int) -> bool, c: int, w1: int, w2: int) -> bool {
    let n0 = ws0.len() as int;
    &&& some_in(s, n0)
    &&& some_in(other_side(s), n0)
    &&& side_weight(ws0, s, n0) == w1
    &&& side_weight(ws0, other_side(s), n0) == w2
    &&& cut_of(es0, s) == c
}

/// The graph `(ws0, es0)` has a cut of weight `c` whose sides weigh `w1`
/// and `w2`.
pub open spec fn has_cut(ws0: Seq<int>, es0: Seq<EdgeV>, c: int, w1: int, w2: int) -> bool {
    exists|s: spec_fn(int) -> bool| #[trigger] is_cut(ws0, es0, s, c, w1, w2)
}

/// A phase finds a cut of the graph the merged graph groups: the group of
/// the node added last against the rest.
pub proof fn lemma_phase_cut(ws0: Seq<int>, es0: Seq<EdgeV>, g: Seq<int>, ws: Seq<int>, mx: Seq<Seq<int>>, a: usize)
    requires
        grouped(ws0, es0, g, ws, mx),
        ws.len() <= usize::MAX,
        phase_ok(ws, mx, a),
    ensures
        has_cut(ws0, es0, phase_result(ws, mx, a).0, phase_result(ws, mx, a).1, phase_result(ws, mx, a).2),
{
    let n = ws.len() as int;
    let n0 = ws0.len() as int;
    let p = phase_result(ws, mx, a);
    lemma_phase_total(ws, mx, a);
    lemma_phase_ends(ws, mx, a);
    let ord = phase_order(mx, a).unwrap();
    let t = ord[n - 1] as int;
    let u = ord[n - 2] as int;
    let side = group_of(g, t);
    lemma_degree_cut(ws0, es0, g, ws, mx, t);
    lemma_sides(ws0, side, n0);
    assert(ws0.take(n0) =~= ws0);
    assert(holds_some(g, t));
    assert(holds_some(g, u));
    let o1 = choose|o: int| 0 <= o < g.len() && #[trigger] g[o] == t;
    let o2 = choose|o: int| 0 <= o < g.len() && #[trigger] g[o] == u;
    assert(side(o1));
    assert(other_side(side)(o2));
    assert(is_cut(ws0, es0, side, p.0, p.1, p.2));
}

/// The phases find cuts of the graph they started from: while the merged
/// graph groups that graph, the cut of each phase is the cut between the
/// group of the node added last and the rest.
pub proof fn lemma_cut_run_cut(ws0: Seq<int>, es0: Seq<EdgeV>, g: Seq<int>, ws: Seq<int>, mx: Seq<Seq<int>>, stop: int, min: int, s1: int, s2: int)
    requires
        grouped(ws0, es0, g, ws, mx),
        ws.len() <= usize::MAX,
        min < usize::MAX ==> has_cut(ws0, es0, min, s1, s2),
    ensures
        cut_run(ws, mx, stop, min, s1, s2) matches Some(r) ==> (r.0 < usize::MAX ==> has_cut(ws0, es0, r.0, r.1, r.2)),
    decreases ws.len(),
{
    let n = ws.len() as int;
    if n > 1 && phase_ok(ws, mx, 0) {
        let p = phase_result(ws, mx, 0);
        lemma_phase_cut(ws0, es0, g, ws, mx, 0);
        lemma_phase_ends(ws, mx, 0);
        let ord = phase_order(mx, 0).unwrap();
        let t = ord[n - 1] as int;
        let u = ord[n - 2] as int;
        let (m2, t1, t2) = if min > p.0 { (p.0, p.1, p.2) } else { (min, s1, s2) };
        if m2 > stop && p.3.len() < ws.len() {
            lemma_grouped_merge(ws0, es0, g, ws, mx, u, t);
            lemma_cut_run_cut(ws0, es0, regroup(g, u, t, n), p.3, p.4, stop, m2, t1, t2);
        }
    }
}

/// The weight between node `v` and the first `i` nodes of `ord`.
pub open spec fn wto(mx: Seq<Seq<int>>, ord: Seq<usize>, v: int, i: int) -> int
    decreases i,
{
    if i <= 0 { 0 } else { wto(mx, ord, v, i - 1) + mx[ord[i - 1] as int][v] }
}

/// The part of `wto` from the nodes on the other side of `c` than `v`.
pub open spec fn xto(mx: Seq<Seq<int>>, ord: Seq<usize>, c: spec_fn(int) -> bool, v: int, i: int) -> int
    decreases i,
{
    if i <= 0 { 0 } else { xto(mx, ord, c, v, i - 1) + if c(ord[i - 1] as int) != c(v) { mx[ord[i - 1] as int][v] } else { 0 } }
}

/// The weight between the nodes of the first `m` of `ord` that `c` puts on
/// different sides.
pub open spec fn cut_prefix(mx: Seq<Seq<int>>, ord: Seq<usize>, c: spec_fn(int) -> bool, m: int) -> int
    decreases m,
{
    if m <= 0 { 0 } else { cut_prefix(mx, ord, c, m - 1) + xto(mx, ord, c, ord[m - 1] as int, m - 1) }
}

/// The entries of `mx` are not negative.
pub open spec fn nonneg(mx: Seq<Seq<int>>) -> bool {
    forall|x: int, y: int| 0 <= x < mx.len() && 0 <= y < mx.len() ==> #[trigger] mx[x][y] >= 0
}

/// Node `ord[i]` is, of the nodes not among the first `i`, one with the most
/// weight to them.
pub open spec fn tight_at(mx: Seq<Seq<int>>, ord: Seq<usize>, i: int) -> bool {
    forall|v: int| 0 <= v < mx.len() && !ord.take(i).contains(v as usize) ==> #[trigger] wto(mx, ord, v, i) <= wto(mx, ord, ord[i] as int, i)
}

proof fn lemma_xto_nonneg(mx: Seq<Seq<int>>, ord: Seq<usize>, c: spec_fn(int) -> bool, v: int, i: int)
    requires
        nonneg(mx),
        0 <= v < mx.len(),
        i <= ord.len(),
        forall|a: int| 0 <= a < ord.len() ==> #[trigger] ord[a] < mx.len(),
    ensures
        xto(mx, ord, c, v, i) >= 0,
    decreases i,
{
    if i > 0 {
        lemma_xto_nonneg(mx, ord, c, v, i - 1);
        assert(mx[ord[i - 1] as int][v] >= 0);
    }
}

proof fn lemma_cut_prefix_mono(mx: Seq<Seq<int>>, ord: Seq<usize>, c: spec_fn(int) -> bool, j: int, m: int)
    requires
        nonneg(mx),
        0 <= j <= m <= ord.len(),
        forall|a: int| 0 <= a < ord.len() ==> #[trigger] ord[a] < mx.len(),
    ensures
        cut_prefix(mx, ord, c, j) <= cut_prefix(mx, ord, c, m),
    decreases m - j,
{
    if j < m {
        lemma_cut_prefix_mono(mx, ord, c, j, m - 1);
        lemma_xto_nonneg(mx, ord, c, ord[m - 1] as int, m - 1);
    }
}

/// The heart of a phase: for a node `v` outside the first `i` and on the
/// other side of `c` than the last of them, its weight to them is at most
/// the cut among them plus its own crossing weight to them.
proof fn lemma_active(mx: Seq<Seq<int>>, ord: Seq<usize>, c: spec_fn(int) -> bool, i: int)
    requires
        nonneg(mx),
        ord.len() == mx.len(),
        ord.no_duplicates(),
        forall|a: int| 0 <= a < ord.len() ==> #[trigger] ord[a] < mx.len(),
        1 <= i < ord.len(),
        forall|j: int| 1 <= j < i ==> #[trigger] tight_at(mx, ord, j),
    ensures
        forall|v: int| 0 <= v < mx.len() && !ord.take(i).contains(v as usize) && c(v) != c(ord[i - 1] as int)
            ==> #[trigger] wto(mx, ord, v, i) <= cut_prefix(mx, ord, c, i) + xto(mx, ord, c, v, i),
    decreases i,
{
    if i == 1 {
        assert forall|v: int| 0 <= v < mx.len() && !ord.take(i).contains(v as usize) && c(v) != c(ord[i - 1] as int)
            implies #[trigger] wto(mx, ord, v, i) <= cut_prefix(mx, ord, c, i) + xto(mx, ord, c, v, i) by {
            assert(cut_prefix(mx, ord, c, 0) == 0);
            assert(xto(mx, ord, c, ord[0] as int, 0) == 0);
            assert(cut_prefix(mx, ord, c, 1) == 0);
            assert(wto(mx, ord, v, 0) == 0 && xto(mx, ord, c, v, 0) == 0);
            assert(wto(mx, ord, v, 1) == mx[ord[0] as int][v]);
            assert(xto(mx, ord, c, v, 1) == mx[ord[0] as int][v]);
        }
    } else {
        let k = i - 1;
        lemma_active(mx, ord, c, k);
        let u = ord[k] as int;
        assert(tight_at(mx, ord, k));
        lemma_cut_prefix_mono(mx, ord, c, k, i);
        assert forall|v: int| 0 <= v < mx.len() && !ord.take(i).contains(v as usize) && c(v) != c(ord[i - 1] as int)
            implies #[trigger] wto(mx, ord, v, i) <= cut_prefix(mx, ord, c, i) + xto(mx, ord, c, v, i) by {
            assert(!ord.take(k).contains(v as usize)) by {
                if ord.take(k).contains(v as usize) {
                    let a = choose|a: int| 0 <= a < ord.take(k).len() && ord.take(k)[a] == v as usize;
                    assert(ord.take(i)[a] == v as usize);
                }
            }
            assert(ord.take(i)[k] == ord[k]);
            assert(v != u);
            lemma_xto_nonneg(mx, ord, c, v, k);
            assert(mx[u][v] >= 0);
            if c(ord[k - 1] as int) == c(u) {
                // the side did not change: v is on the other side of the old last node too
                assert(wto(mx, ord, v, k) <= cut_prefix(mx, ord, c, k) + xto(mx, ord, c, v, k));
            } else {
                // an active node: v weighs no more than it, on the side of the node before
                assert(!ord.take(k).contains(u as usize)) by {
                    if ord.take(k).contains(u as usize) {
                        let a = choose|a: int| 0 <= a < ord.take(k).len() && ord.take(k)[a] == u as usize;
                        assert(ord[a] == ord[k]);
                    }
                }
                assert(wto(mx, ord, u, k) <= cut_prefix(mx, ord, c, k) + xto(mx, ord, c, u, k));
                assert(wto(mx, ord, v, k) <= wto(mx, ord, u, k));
                assert(cut_prefix(mx, ord, c, i) == cut_prefix(mx, ord, c, k) + xto(mx, ord, c, u, k));
            }
        }
    }
}

/// The matrix is symmetric.
pub open spec fn symmetric(mx: Seq<Seq<int>>) -> bool {
    forall|x: int, y: int| 0 <= x < mx.len() && 0 <= y < mx.len() ==> #[trigger] mx[x][y] == mx[y][x]
}

/// The weight from node `v` to the first `i` nodes of `ord`, read along
/// `v`'s row.
pub open spec fn wrow(mx: Seq<Seq<int>>, ord: Seq<usize>, v: int, i: int) -> int
    decreases i,
{
    if i <= 0 { 0 } else { wrow(mx, ord, v, i - 1) + mx[v][ord[i - 1] as int] }
}

proof fn lemma_best_max(mx: Seq<Seq<int>>, s: Set<usize>, k: int)
    ensures
        forall|v: int| 0 <= v < k && !in_set(s, v) ==> #[trigger] conn(mx, v, s) <= best(mx, s, k).0,
        best(mx, s, k).1 matches Some(r) ==> conn(mx, r, s) == best(mx, s, k).0,
    decreases k,
{
    if k > 0 {
        lemma_best_max(mx, s, k - 1);
        lemma_best(mx, s, k - 1);
    }
}

proof fn lemma_rsum_insert(row: Seq<int>, s: Set<usize>, z: usize, k: int)
    requires
        !s.contains(z),
        k <= usize::MAX + 1,
    ensures
        rsum(row, member(s.insert(z)), k) == rsum(row, member(s), k) + (if z < k { row[z as int] } else { 0 }),
    decreases k,
{
    if k > 0 {
        lemma_rsum_insert(row, s, z, k - 1);
        let t = k - 1;
        assert(member(s.insert(z))(t) == (member(s)(t) || t == z));
    }
}

proof fn lemma_conn_wrow(mx: Seq<Seq<int>>, order: Seq<usize>, v: int)
    requires
        order.no_duplicates(),
        mx.len() <= usize::MAX,
        forall|a: int| 0 <= a < order.len() ==> #[trigger] order[a] < mx.len(),
    ensures
        conn(mx, v, order.to_set()) == wrow(mx, order, v, order.len() as int),
    decreases order.len(),
{
    let n = mx.len() as int;
    if order.len() == 0 {
        assert(order.to_set() =~= Set::<usize>::empty());
        lemma_rsum_zero_set(mx[v], n);
    } else {
        let o2 = order.drop_last();
        let z = order.last();
        assert(o2.no_duplicates()) by {
            assert forall|i: int, j: int| 0 <= i < o2.len() && 0 <= j < o2.len() && i != j implies o2[i] != o2[j] by {
                assert(o2[i] == order[i] && o2[j] == order[j]);
            }
        }
        assert forall|a: int| 0 <= a < o2.len() implies #[trigger] o2[a] < mx.len() by {
            assert(o2[a] == order[a]);
        }
        lemma_conn_wrow(mx, o2, v);
        assert(order =~= o2.push(z));
        o2.lemma_push_to_set_commute(z);
        assert(!o2.to_set().contains(z)) by {
            if o2.to_set().contains(z) {
                let a = choose|a: int| 0 <= a < o2.len() && o2[a] == z;
                assert(order[a] == order[order.len() - 1]);
            }
        }
        assert(order[order.len() - 1] < mx.len());
        lemma_rsum_insert(mx[v], o2.to_set(), z, n);
        assert forall|a: int| 0 <= a < o2.len() implies wrow(mx, order, v, a) == wrow(mx, o2, v, a) by {
            lemma_wrow_prefix(mx, order, o2, v, a);
        }
        lemma_wrow_prefix(mx, order, o2, v, o2.len() as int);
    }
}

proof fn lemma_rsum_zero_set(row: Seq<int>, k: int)
    ensures
        rsum(row, member(Set::<usize>::empty()), k) == 0,
    decreases k,
{
    if k > 0 {
        lemma_rsum_zero_set(row, k - 1);
    }
}

proof fn lemma_wrow_prefix(mx: Seq<Seq<int>>, r: Seq<usize>, o: Seq<usize>, v: int, k: int)
    requires
        0 <= k <= o.len(),
        k <= r.len(),
        forall|a: int| 0 <= a < k ==> #[trigger] r[a] == o[a],
    ensures
        wrow(mx, r, v, k) == wrow(mx, o, v, k),
        wto(mx, r, v, k) == wto(mx, o, v, k),
    decreases k,
{
    if k > 0 {
        lemma_wrow_prefix(mx, r, o, v, k - 1);
        assert(r[k - 1] == o[k - 1]);
    }
}

proof fn lemma_wrow_wto(mx: Seq<Seq<int>>, ord: Seq<usize>, v: int, i: int)
    requires
        symmetric(mx),
        0 <= v < mx.len(),
        i <= ord.len(),
        forall|a: int| 0 <= a < ord.len() ==> #[trigger] ord[a] < mx.len(),
    ensures
        wrow(mx, ord, v, i) == wto(mx, ord, v, i),
    decreases i,
{
    if i > 0 {
        lemma_wrow_wto(mx, ord, v, i - 1);
        assert(ord[i - 1] < mx.len());
        assert(mx[v][ord[i - 1] as int] == mx[ord[i - 1] as int][v]);
    }
}

/// Every node that a phase adds is one with the most weight to those
/// added before it.
proof fn lemma_grow_tight(mx: Seq<Seq<int>>, s: Set<usize>, order: Seq<usize>, steps: nat)
    requires
        order.no_duplicates(),
        s == order.to_set(),
        mx.len() <= usize::MAX,
        symmetric(mx),
        forall|i: int| 0 <= i < order.len() ==> #[trigger] order[i] < mx.len(),
    ensures
        grow(mx, s, order, steps) matches Some(r) ==> r.len() >= order.len()
            && (forall|a: int| 0 <= a < order.len() ==> #[trigger] r[a] == order[a])
            && (forall|j: int| order.len() <= j < r.len() ==> #[trigger] tight_at(mx, r, j)),
    decreases steps,
{
    let n = mx.len() as int;
    if steps > 0 {
        if let Some(m) = tightest(mx, s) {
            lemma_best(mx, s, n);
            lemma_best_max(mx, s, n);
            let o2 = order.push(m as usize);
            assert(!s.contains(m as usize));
            assert(!order.contains(m as usize));
            assert(o2.to_set() =~= s.insert(m as usize)) by {
                order.lemma_push_to_set_commute(m as usize);
            }
            assert(o2.no_duplicates()) by {
                assert forall|i: int, j: int| 0 <= i < o2.len() && 0 <= j < o2.len() && i != j implies o2[i] != o2[j] by {
                    if i == order.len() as int {
                        assert(order[j] == o2[j]);
                    } else if j == order.len() as int {
                        assert(order[i] == o2[i]);
                    }
                }
            }
            assert forall|i: int| 0 <= i < o2.len() implies #[trigger] o2[i] < mx.len() by {
                if i < order.len() {
                    assert(o2[i] == order[i]);
                }
            }
            lemma_grow_tight(mx, s.insert(m as usize), o2, (steps - 1) as nat);
            lemma_grow(mx, s.insert(m as usize), o2, (steps - 1) as nat);
            if let Some(r) = grow(mx, s.insert(m as usize), o2, (steps - 1) as nat) {
                let len = order.len() as int;
                assert forall|a: int| 0 <= a < len implies #[trigger] r[a] == order[a] by {
                    assert(r[a] == o2[a]);
                }
                assert(r[len] == o2[len]);
                lemma_conn_wrow(mx, order, m);
                assert(tight_at(mx, r, len)) by {
                    assert forall|v: int| 0 <= v < mx.len() && !r.take(len).contains(v as usize)
                        implies #[trigger] wto(mx, r, v, len) <= wto(mx, r, r[len] as int, len) by {
                        assert(r.take(len) =~= order);
                        assert(!in_set(s, v));
                        lemma_conn_wrow(mx, order, v);
                        lemma_wrow_prefix(mx, r, order, v, len);
                        lemma_wrow_prefix(mx, r, order, m, len);
                        lemma_wrow_wto(mx, order, v, len);
                        lemma_wrow_wto(mx, order, m, len);
                    }
                }
            }
        }
    }
}

/// Node `x` has a place in `ord`.
pub open spec fn placed(ord: Seq<usize>, x: int) -> bool {
    exists|a: int| 0 <= a < ord.len() && #[trigger] ord[a] == x
}

/// An order of `n` distinct nodes below `n` holds every node below `n`.
proof fn lemma_covers(ord: Seq<usize>, n: int)
    requires
        ord.len() == n,
        ord.no_duplicates(),
        forall|a: int| 0 <= a < ord.len() ==> #[trigger] ord[a] < n,
    ensures
        forall|x: int| 0 <= x < n ==> #[trigger] placed(ord, x),
{
    let oi = ord.map_values(|u: usize| u as int);
    assert(oi.no_duplicates()) by {
        assert forall|i: int, j: int| 0 <= i < oi.len() && 0 <= j < oi.len() && i != j implies oi[i] != oi[j] by {
            assert(ord[i] != ord[j]);
        }
    }
    oi.unique_seq_to_set();
    vstd::set_lib::lemma_int_range(0, n);
    assert(oi.to_set().subset_of(vstd::set_lib::set_int_range(0, n))) by {
        assert forall|v: int| oi.to_set().contains(v) implies vstd::set_lib::set_int_range(0, n).contains(v) by {
            let i = choose|i: int| 0 <= i < oi.len() && oi[i] == v;
            assert(ord[i] < n);
        }
    }
    vstd::set_lib::lemma_subset_equality(oi.to_set(), vstd::set_lib::set_int_range(0, n));
    assert forall|x: int| 0 <= x < n implies #[trigger] placed(ord, x) by {
        assert(vstd::set_lib::set_int_range(0, n).contains(x));
        assert(oi.to_set().contains(x));
        let i = choose|i: int| 0 <= i < oi.len() && oi[i] == x;
        assert(ord[i] == x);
    }
}

/// The weight between groups `x` and `y`, none within a group.
pub open spec fn lk(g: Seq<int>, es: Seq<EdgeV>, x: int, y: int) -> int {
    if x == y { 0 } else { link(g, es, x, y) }
}

/// `xto` over the weights between groups.
pub open spec fn cinner(g: Seq<int>, es: Seq<EdgeV>, ord: Seq<usize>, c: spec_fn(int) -> bool, b: int, a: int) -> int
    decreases a,
{
    if a <= 0 {
        0
    } else {
        cinner(g, es, ord, c, b, a - 1) + if c(ord[a - 1] as int) != c(ord[b] as int) { lk(g, es, ord[a - 1] as int, ord[b] as int) } else { 0 }
    }
}

/// `cut_prefix` over the weights between groups.
pub open spec fn couter(g: Seq<int>, es: Seq<EdgeV>, ord: Seq<usize>, c: spec_fn(int) -> bool, m: int) -> int
    decreases m,
{
    if m <= 0 { 0 } else { couter(g, es, ord, c, m - 1) + cinner(g, es, ord, c, m - 1, m - 1) }
}

/// The edge `e` joins groups `x` and `y`.
pub open spec fn meets(g: Seq<int>, e: EdgeV, x: int, y: int) -> bool {
    (g[e.0] == x && g[e.1] == y) || (g[e.0] == y && g[e.1] == x)
}

/// What the edge `e` adds to `cinner`.
pub open spec fn ein(g: Seq<int>, e: EdgeV, ord: Seq<usize>, c: spec_fn(int) -> bool, b: int, a: int) -> int
    decreases a,
{
    if a <= 0 {
        0
    } else {
        let x = ord[a - 1] as int;
        let y = ord[b] as int;
        ein(g, e, ord, c, b, a - 1) + if c(x) != c(y) && x != y && meets(g, e, x, y) { e.2 as int } else { 0 }
    }
}

/// What the edge `e` adds to `couter`.
pub open spec fn eout(g: Seq<int>, e: EdgeV, ord: Seq<usize>, c: spec_fn(int) -> bool, m: int) -> int
    decreases m,
{
    if m <= 0 { 0 } else { eout(g, e, ord, c, m - 1) + ein(g, e, ord, c, m - 1, m - 1) }
}

proof fn lemma_cinner_edge(g: Seq<int>, es: Seq<EdgeV>, ord: Seq<usize>, c: spec_fn(int) -> bool, b: int, a: int)
    requires
        es.len() > 0,
    ensures
        cinner(g, es, ord, c, b, a) == cinner(g, es.drop_last(), ord, c, b, a) + ein(g, es.last(), ord, c, b, a),
    decreases a,
{
    if a > 0 {
        lemma_cinner_edge(g, es, ord, c, b, a - 1);
    }
}

proof fn lemma_couter_edge(g: Seq<int>, es: Seq<EdgeV>, ord: Seq<usize>, c: spec_fn(int) -> bool, m: int)
    requires
        es.len() > 0,
    ensures
        couter(g, es, ord, c, m) == couter(g, es.drop_last(), ord, c, m) + eout(g, es.last(), ord, c, m),
    decreases m,
{
    if m > 0 {
        lemma_couter_edge(g, es, ord, c, m - 1);
        lemma_cinner_edge(g, es, ord, c, m - 1, m - 1);
    }
}

/// The one pair of places in `ord` that an edge between two groups meets.
proof fn lemma_ein(g: Seq<int>, e: EdgeV, ord: Seq<usize>, c: spec_fn(int) -> bool, pu: int, pv: int, b: int, a: int)
    requires
        ord.no_duplicates(),
        0 <= pu < ord.len(),
        0 <= pv < ord.len(),
        ord[pu] as int == g[e.0],
        ord[pv] as int == g[e.1],
        0 <= b < ord.len(),
        0 <= a <= ord.len(),
    ensures
        ein(g, e, ord, c, b, a) == if pu != pv && c(g[e.0]) != c(g[e.1]) && ((b == pv && pu < a) || (b == pu && pv < a)) { e.2 as int } else { 0 },
    decreases a,
{
    if a > 0 {
        lemma_ein(g, e, ord, c, pu, pv, b, a - 1);
        let k = a - 1;
        if ord[k] == ord[pu] {
            assert(k == pu);
        }
        if ord[k] == ord[pv] {
            assert(k == pv);
        }
        if ord[b] == ord[pu] {
            assert(b == pu);
        }
        if ord[b] == ord[pv] {
            assert(b == pv);
        }
        if pu == pv {
            assert(!(ord[k] as int != ord[b] as int && meets(g, e, ord[k] as int, ord[b] as int)));
        }
    }
}

proof fn lemma_eout(g: Seq<int>, e: EdgeV, ord: Seq<usize>, c: spec_fn(int) -> bool, pu: int, pv: int, m: int)
    requires
        ord.no_duplicates(),
        0 <= pu < ord.len(),
        0 <= pv < ord.len(),
        ord[pu] as int == g[e.0],
        ord[pv] as int == g[e.1],
        0 <= m <= ord.len(),
    ensures
        eout(g, e, ord, c, m) == if pu != pv && c(g[e.0]) != c(g[e.1]) && pu < m && pv < m { e.2 as int } else { 0 },
    decreases m,
{
    if m > 0 {
        lemma_eout(g, e, ord, c, pu, pv, m - 1);
        lemma_ein(g, e, ord, c, pu, pv, m - 1, m - 1);
    }
}

/// Summed along an order of all groups, the weights between groups that
/// `c` separates are the weight of the edges that the union of the groups
/// `c` picks cuts.
proof fn lemma_couter_cut(g: Seq<int>, es: Seq<EdgeV>, ord: Seq<usize>, c: spec_fn(int) -> bool, s: spec_fn(int) -> bool, n0: int, n: int)
    requires
        ends_below(es, n0),
        g.len() == n0,
        forall|o: int| 0 <= o < n0 ==> 0 <= #[trigger] g[o] < n,
        forall|o: int| 0 <= o < n0 ==> #[trigger] s(o) == c(g[o]),
        ord.len() == n,
        ord.no_duplicates(),
        forall|x: int| 0 <= x < n ==> #[trigger] placed(ord, x),
    ensures
        couter(g, es, ord, c, n) == cut_of(es, s),
    decreases es.len(),
{
    if es.len() == 0 {
        lemma_couter_empty(g, es, ord, c, n);
    } else {
        lemma_ends_below_drop(es, n0);
        lemma_couter_cut(g, es.drop_last(), ord, c, s, n0, n);
        lemma_couter_edge(g, es, ord, c, n);
        let e = es.last();
        let x = g[e.0];
        let y = g[e.1];
        assert(placed(ord, x) && placed(ord, y));
        let pu = choose|a: int| 0 <= a < ord.len() && #[trigger] ord[a] == x;
        let pv = choose|a: int| 0 <= a < ord.len() && #[trigger] ord[a] == y;
        lemma_eout(g, e, ord, c, pu, pv, n);
        assert(s(e.0) == c(x) && s(e.1) == c(y));
        if pu == pv {
            assert(x == y);
        }
    }
}

proof fn lemma_couter_empty(g: Seq<int>, es: Seq<EdgeV>, ord: Seq<usize>, c: spec_fn(int) -> bool, m: int)
    requires
        es.len() == 0,
    ensures
        couter(g, es, ord, c, m) == 0,
    decreases m,
{
    if m > 0 {
        lemma_couter_empty(g, es, ord, c, m - 1);
        lemma_cinner_empty(g, es, ord, c, m - 1, m - 1);
    }
}

proof fn lemma_cinner_empty(g: Seq<int>, es: Seq<EdgeV>, ord: Seq<usize>, c: spec_fn(int) -> bool, b: int, a: int)
    requires
        es.len() == 0,
    ensures
        cinner(g, es, ord, c, b, a) == 0,
    decreases a,
{
    if a > 0 {
        lemma_cinner_empty(g, es, ord, c, b, a - 1);
    }
}

proof fn lemma_link_nonneg(g: Seq<int>, es: Seq<EdgeV>, a: int, b: int)
    ensures
        link(g, es, a, b) >= 0,
    decreases es.len(),
{
    if es.len() > 0 {
        lemma_link_nonneg(g, es.drop_last(), a, b);
    }
}

proof fn lemma_rsum_ext(row: Seq<int>, s1: spec_fn(int) -> bool, s2: spec_fn(int) -> bool, k: int)
    requires
        forall|t: int| 0 <= t < k ==> #[trigger] s1(t) == s2(t),
    ensures
        rsum(row, s1, k) == rsum(row, s2, k),
    decreases k,
{
    if k > 0 {
        lemma_rsum_ext(row, s1, s2, k - 1);
    }
}

proof fn lemma_prefix_couter(ws0: Seq<int>, es0: Seq<EdgeV>, g: Seq<int>, ws: Seq<int>, mx: Seq<Seq<int>>, ord: Seq<usize>, c: spec_fn(int) -> bool, m: int)
    requires
        grouped(ws0, es0, g, ws, mx),
        forall|a: int| 0 <= a < ord.len() ==> #[trigger] ord[a] < ws.len(),
        0 <= m <= ord.len(),
    ensures
        cut_prefix(mx, ord, c, m) == couter(g, es0, ord, c, m),
    decreases m,
{
    if m > 0 {
        lemma_prefix_couter(ws0, es0, g, ws, mx, ord, c, m - 1);
        lemma_xto_cinner(ws0, es0, g, ws, mx, ord, c, m - 1, m - 1);
    }
}

proof fn lemma_xto_cinner(ws0: Seq<int>, es0: Seq<EdgeV>, g: Seq<int>, ws: Seq<int>, mx: Seq<Seq<int>>, ord: Seq<usize>, c: spec_fn(int) -> bool, b: int, a: int)
    requires
        grouped(ws0, es0, g, ws, mx),
        forall|i: int| 0 <= i < ord.len() ==> #[trigger] ord[i] < ws.len(),
        0 <= b < ord.len(),
        0 <= a <= ord.len(),
    ensures
        xto(mx, ord, c, ord[b] as int, a) == cinner(g, es0, ord, c, b, a),
    decreases a,
{
    if a > 0 {
        lemma_xto_cinner(ws0, es0, g, ws, mx, ord, c, b, a - 1);
        let x = ord[a - 1] as int;
        let y = ord[b] as int;
        assert(x < ws.len() && y < ws.len());
        assert(mx[x][y] == lk(g, es0, x, y));
    }
}

/// The cut of a phase weighs no more than any cut of the graph as read
/// that is a union of groups and separates the groups of the last two
/// nodes the phase adds.
pub proof fn lemma_phase_min(ws0: Seq<int>, es0: Seq<EdgeV>, g: Seq<int>, ws: Seq<int>, mx: Seq<Seq<int>>, c: spec_fn(int) -> bool, s: spec_fn(int) -> bool)
    requires
        grouped(ws0, es0, g, ws, mx),
        ws.len() <= usize::MAX,
        phase_ok(ws, mx, 0),
        forall|o: int| 0 <= o < ws0.len() ==> #[trigger] s(o) == c(g[o]),
        phase_order(mx, 0) matches Some(ord) && c(ord[ws.len() - 2] as int) != c(ord[ws.len() - 1] as int),
    ensures
        phase_result(ws, mx, 0).0 <= cut_of(es0, s),
{
    let n = ws.len() as int;
    let n0 = ws0.len() as int;
    let ord = phase_order(mx, 0).unwrap();
    assert(seq![0usize].to_set() =~= set![0usize]) by {
        Seq::<usize>::empty().lemma_push_to_set_commute(0usize);
        assert(Seq::<usize>::empty().push(0usize) =~= seq![0usize]);
        assert(Seq::<usize>::empty().to_set() =~= Set::<usize>::empty());
    }
    assert(seq![0usize].no_duplicates());
    assert(symmetric(mx)) by {
        assert forall|x: int, y: int| 0 <= x < mx.len() && 0 <= y < mx.len() implies #[trigger] mx[x][y] == mx[y][x] by {
            lemma_link_sym(g, es0, x, y);
        }
    }
    assert(nonneg(mx)) by {
        assert forall|x: int, y: int| 0 <= x < mx.len() && 0 <= y < mx.len() implies #[trigger] mx[x][y] >= 0 by {
            lemma_link_nonneg(g, es0, x, y);
        }
    }
    lemma_grow(mx, set![0usize], seq![0usize], (mx.len() - 1) as nat);
    lemma_grow_tight(mx, set![0usize], seq![0usize], (mx.len() - 1) as nat);
    assert(ord.len() == n);
    lemma_active(mx, ord, c, n - 1);
    let t = ord[n - 1] as int;
    let head = ord.take(n - 1);
    assert(!head.contains(t as usize)) by {
        if head.contains(t as usize) {
            let a = choose|a: int| 0 <= a < head.len() && #[trigger] head[a] == t as usize;
            assert(ord[a] == ord[n - 1]);
        }
    }
    assert(ord.take(n - 1)[n - 2] == ord[n - 2]);
    assert(wto(mx, ord, t, n - 1) <= cut_prefix(mx, ord, c, n - 1) + xto(mx, ord, c, t, n - 1));
    assert(cut_prefix(mx, ord, c, n) == cut_prefix(mx, ord, c, n - 1) + xto(mx, ord, c, t, n - 1));
    // the weight at t is its weight to all the others
    lemma_covers(ord, n);
    assert forall|y: int| 0 <= y < n implies #[trigger] every()(y) == member(ord.to_set())(y) by {
        assert(placed(ord, y));
        let a = choose|a: int| 0 <= a < ord.len() && #[trigger] ord[a] == y;
        assert(ord.to_set().contains(ord[a]));
    }
    lemma_rsum_ext(mx[t], every(), member(ord.to_set()), n);
    lemma_conn_wrow(mx, ord, t);
    lemma_wrow_wto(mx, ord, t, n);
    assert(mx[t][t] == 0);
    assert(degree(mx, t) == wto(mx, ord, t, n - 1));
    lemma_prefix_couter(ws0, es0, g, ws, mx, ord, c, n);
    lemma_couter_cut(g, es0, ord, c, s, n0, n);
}

/// The side `c` of the nodes after merging `a` and `b` (which it puts on
/// one side): the merged node goes where `a` went.
pub open spec fn merged_side(c: spec_fn(int) -> bool, a: int, b: int, n: int) -> spec_fn(int) -> bool {
    |z: int| c(if old_place(z, a, b, n) == n { a } else { old_place(z, a, b, n) })
}

proof fn lemma_cut_run_le(ws: Seq<int>, mx: Seq<Seq<int>>, stop: int, min: int, s1: int, s2: int)
    ensures
        cut_run(ws, mx, stop, min, s1, s2) matches Some(r) ==> r.0 <= min,
    decreases ws.len(),
{
    if ws.len() > 1 && phase_ok(ws, mx, 0) {
        let p = phase_result(ws, mx, 0);
        let (m2, t1, t2) = if min > p.0 { (p.0, p.1, p.2) } else { (min, s1, s2) };
        if m2 > stop && p.3.len() < ws.len() {
            lemma_cut_run_le(p.3, p.4, stop, m2, t1, t2);
        }
    }
}

/// The phases miss no lighter cut: unless they stopped at a cut of at
/// most `stop`, what they report weighs no more than any cut of the graph
/// as read whose side is a union of the current groups.
pub proof fn lemma_cut_run_min(ws0: Seq<int>, es0: Seq<EdgeV>, g: Seq<int>, ws: Seq<int>, mx: Seq<Seq<int>>, stop: int, min: int, s1: int, s2: int, c: spec_fn(int) -> bool, s: spec_fn(int) -> bool)
    requires
        grouped(ws0, es0, g, ws, mx),
        ws.len() <= usize::MAX,
        forall|o: int| 0 <= o < ws0.len() ==> #[trigger] s(o) == c(g[o]),
        some_in(s, ws0.len() as int),
        some_in(other_side(s), ws0.len() as int),
    ensures
        cut_run(ws, mx, stop, min, s1, s2) matches Some(r) ==> r.0 <= min && (r.0 <= stop || r.0 <= cut_of(es0, s)),
    decreases ws.len(),
{
    let n = ws.len() as int;
    let n0 = ws0.len() as int;
    let o1 = choose|o: int| 0 <= o < n0 && #[trigger] s(o);
    let o2 = choose|o: int| 0 <= o < n0 && #[trigger] other_side(s)(o);
    assert(0 <= g[o1] < n && 0 <= g[o2] < n);
    if n <= 1 {
        assert(g[o1] == g[o2]);
        assert(s(o1) == c(g[o1]) && s(o2) == c(g[o2]));
    } else if phase_ok(ws, mx, 0) {
        let p = phase_result(ws, mx, 0);
        lemma_phase_ends(ws, mx, 0);
        let ord = phase_order(mx, 0).unwrap();
        let u = ord[n - 2] as int;
        let t = ord[n - 1] as int;
        let (m2, t1, t2) = if min > p.0 { (p.0, p.1, p.2) } else { (min, s1, s2) };
        if m2 > stop && p.3.len() < ws.len() {
            if c(u) != c(t) {
                lemma_phase_min(ws0, es0, g, ws, mx, c, s);
                lemma_cut_run_le(p.3, p.4, stop, m2, t1, t2);
            } else {
                let g2 = regroup(g, u, t, n);
                let c2 = merged_side(c, u, t, n);
                lemma_grouped_merge(ws0, es0, g, ws, mx, u, t);
                lemma_places(u, t, n);
                assert forall|o: int| 0 <= o < n0 implies #[trigger] s(o) == c2(g2[o]) by {
                    let x = g[o];
                    assert(0 <= x < n);
                    assert(g2[o] == new_place(x, u, t, n));
                }
                lemma_cut_run_min(ws0, es0, g2, p.3, p.4, stop, m2, t1, t2, c2, s);
            }
        }
    }
}

/// No cut of the graph `(ws0, es0)` weighs less than `c`.
pub open spec fn least_cut(ws0: Seq<int>, es0: Seq<EdgeV>, c: int) -> bool {
    forall|s: spec_fn(int) -> bool| some_in(s, ws0.len() as int) && some_in(other_side(s), ws0.len() as int)
        ==> c <= #[trigger] cut_of(es0, s)
}

/// Unless the phases stop at a cut of at most `stop`, the cut they report
/// is a least cut of the graph.
pub proof fn lemma_run_least(ws0: Seq<int>, es0: Seq<EdgeV>, stop: int)
    requires
        graph_ok(es0, ws0.len() as int),
        ws0.len() <= usize::MAX,
    ensures
        cut_run(ws0, adj(es0, ws0.len() as int), stop, usize::MAX as int, 0, 0) matches Some(r)
            ==> (r.0 > stop ==> least_cut(ws0, es0, r.0)),
{
    let n0 = ws0.len() as int;
    lemma_grouped_start(ws0, es0);
    if let Some(r) = cut_run(ws0, adj(es0, n0), stop, usize::MAX as int, 0, 0) {
        if r.0 > stop {
            assert forall|s: spec_fn(int) -> bool| some_in(s, n0) && some_in(other_side(s), n0)
                implies r.0 <= #[trigger] cut_of(es0, s) by {
                assert forall|o: int| 0 <= o < n0 implies #[trigger] s(o) == s(ident(n0)[o]) by {}
                lemma_cut_run_min(ws0, es0, ident(n0), ws0, adj(es0, n0), stop, usize::MAX as int, 0, 0, s, s);
            }
        }
    }
}

/// The `u32` indices of the graph suffice for every phase.
pub open spec fn counts_fit(n: int, e: int) -> bool {
    &&& n + 1 < u32::MAX
    &&& e + (2 * n + 2) * n < u32::MAX
}

/// Runs phases until one node is left or a cut of weight at most `stop_at`
/// is found (see `cut_run`); returns the smallest cut and the weights of
/// the two sides of the phase that found it. That cut is a cut of the
/// graph, and where it weighs more than `stop_at`, no cut weighs less.
#[verifier::loop_isolation(false)]
pub fn minimum_cut(g: &mut UnGraph<usize, usize>, stop_at: usize) -> (res: (usize, usize, usize))
    requires
        graph_ok(cg_edges(*old(g)), cg_weights(*old(g)).len() as int),
        counts_fit(cg_weights(*old(g)).len() as int, cg_edges(*old(g)).len() as int),
        cut_run(cg_weights(*old(g)), adj(cg_edges(*old(g)), cg_weights(*old(g)).len() as int), stop_at as int, usize::MAX as int, 0, 0) is Some,
    ensures
        cut_run(cg_weights(*old(g)), adj(cg_edges(*old(g)), cg_weights(*old(g)).len() as int), stop_at as int, usize::MAX as int, 0, 0)
            == Some((res.0 as int, res.1 as int, res.2 as int)),
        res.0 < usize::MAX ==> has_cut(cg_weights(*old(g)), cg_edges(*old(g)), res.0 as int, res.1 as int, res.2 as int),
        res.0 > stop_at ==> least_cut(cg_weights(*old(g)), cg_edges(*old(g)), res.0 as int),
{
    proof {
        let ws0 = cg_weights(*g);
        let es0 = cg_edges(*g);
        lemma_grouped_start(ws0, es0);
        lemma_cut_run_cut(ws0, es0, ident(ws0.len() as int), ws0, adj(es0, ws0.len() as int), stop_at as int, usize::MAX as int, 0, 0);
        lemma_run_least(ws0, es0, stop_at as int);
    }
    let ghost r = cut_run(cg_weights(*g), adj(cg_edges(*g), cg_weights(*g).len() as int), stop_at as int, usize::MAX as int, 0, 0);
    let ghost n0 = cg_weights(*g).len() as int;
    let ghost e0 = cg_edges(*g).len() as int;
    let ghost kk = 2 * n0 + 2;
    let mut min: usize = usize::MAX;
    let mut s1: usize = 0;
    let mut s2: usize = 0;
    while cg_node_count(g) > 1
        invariant
            graph_ok(cg_edges(*g), cg_weights(*g).len() as int),
            cg_weights(*g).len() <= n0,
            n0 + 1 < u32::MAX,
            cg_edges(*g).len() + kk * cg_weights(*g).len() <= e0 + kk * n0,
            e0 + kk * n0 < u32::MAX,
            r is Some,
            cut_run(cg_weights(*g), adj(cg_edges(*g), cg_weights(*g).len() as int), stop_at as int, min as int, s1 as int, s2 as int) == r,
        decreases cg_weights(*g).len(),
    {
        let ghost nc = cg_weights(*g).len() as int;
        let ghost ec = cg_edges(*g).len() as int;
        proof {
            assert(kk * nc >= kk) by (nonlinear_arith)
                requires
                    nc >= 1,
                    kk >= 0,
            ;
        }
        let (cut, c1, c2) = minimum_cut_phase(g, 0);
        proof {
            assert(kk * (nc - 1) == kk * nc - kk) by (nonlinear_arith);
            assert(cg_weights(*g).len() == nc - 1);
            assert(2 * nc + 2 <= kk);
        }
        if min > cut {
            min = cut;
            s1 = c1;
            s2 = c2;
        }
        if min <= stop_at {
            break;
        }
    }
    (min, s1, s2)
}

/// The product of the sizes of the two groups that a cut of at most three
/// wires leaves (or, where there is none, a least cut).
pub fn part1(input: &UnGraph<usize, usize>) -> (res: usize)
    requires
        graph_ok(cg_edges(*input), cg_weights(*input).len() as int),
        counts_fit(cg_weights(*input).len() as int, cg_edges(*input).len() as int),
        cut_run(cg_weights(*input), adj(cg_edges(*input), cg_weights(*input).len() as int), 3, usize::MAX as int, 0, 0) matches Some(r)
            && r.1 * r.2 <= usize::MAX,
    ensures
        cut_run(cg_weights(*input), adj(cg_edges(*input), cg_weights(*input).len() as int), 3, usize::MAX as int, 0, 0) matches Some(r)
            && res == r.1 * r.2,
        cut_run(cg_weights(*input), adj(cg_edges(*input), cg_weights(*input).len() as int), 3, usize::MAX as int, 0, 0) matches Some(r)
            && (r.0 < usize::MAX ==> r.1 + r.2 == wsum(cg_weights(*input))),
        cut_run(cg_weights(*input), adj(cg_edges(*input), cg_weights(*input).len() as int), 3, usize::MAX as int, 0, 0) matches Some(r)
            && (r.0 < usize::MAX ==> has_cut(cg_weights(*input), cg_edges(*input), r.0, r.1, r.2))
            && (r.0 > 3 ==> least_cut(cg_weights(*input), cg_edges(*input), r.0)),
{
    proof {
        let ws0 = cg_weights(*input);
        let es0 = cg_edges(*input);
        lemma_run_least(ws0, es0, 3);
        lemma_cut_run_total(ws0, adj(es0, ws0.len() as int), 3, usize::MAX as int, 0, 0);
        lemma_grouped_start(ws0, es0);
        lemma_cut_run_cut(ws0, es0, ident(ws0.len() as int), ws0, adj(es0, ws0.len() as int), 3, usize::MAX as int, 0, 0);
    }
    let mut g = cg_clone(input);
    let (_, c1, c2) = minimum_cut(&mut g, 3);
    c1 * c2
}

/// More names from `j` on, each after a space.
pub open spec fn p_more(s: Seq<u8>, j: int) -> (Seq<Seq<u8>>, int)
    decreases s.len() - j,
{
    if 0 <= j && byte_is(s, j, 32u8) && lower_run(s, j + 1) > 0 {
        let e = j + 1 + lower_run(s, j + 1);
        proof {
            lemma_lower_run(s, j + 1);
        }
        let r = p_more(s, e);
        (seq![s.subrange(j + 1, e)] + r.0, r.1)
    } else {
        (Seq::empty(), j)
    }
}

/// A list of names at `i`, separated by spaces, possibly none.
pub open spec fn p_list(s: Seq<u8>, i: int) -> (Seq<Seq<u8>>, int) {
    match p_ident(s, i) {
        Some((n, j)) => {
            let r = p_more(s, j);
            (seq![n] + r.0, r.1)
        },
        None => (Seq::empty(), i),
    }
}

/// A line at `i`: a name, `: `, the names it is wired to, then `\n` or the
/// end.
pub open spec fn p_item(s: Seq<u8>, i: int) -> Option<((Seq<u8>, Seq<Seq<u8>>), int)> {
    match p_ident(s, i) {
        Some((name, i1)) => if matches_at(s, i1, seq![58u8, 32u8]) {
            let (tos, i2) = p_list(s, i1 + 2);
            if byte_is(s, i2, 10u8) {
                Some(((name, tos), i2 + 1))
            } else if i2 == s.len() {
                Some(((name, tos), i2))
            } else {
                None
            }
        } else {
            None
        },
        None => None,
    }
}

/// The lines from `i` on, one after the other, and where they end.
pub open spec fn p_items(s: Seq<u8>, i: int) -> (Seq<(Seq<u8>, Seq<Seq<u8>>)>, int)
    decreases s.len() - i,
{
    match p_item(s, i) {
        Some((m, j)) => if i < j <= s.len() {
            let r = p_items(s, j);
            (seq![m] + r.0, r.1)
        } else {
            (Seq::empty(), i)
        },
        None => (Seq::empty(), i),
    }
}

/// The wiring diagram: at least one line, and nothing else.
pub open spec fn spec_items(s: Seq<u8>) -> Option<Seq<(Seq<u8>, Seq<Seq<u8>>)>> {
    let r = p_items(s, 0);
    if r.0.len() >= 1 && r.1 == s.len() { Some(r.0) } else { None }
}

proof fn lemma_p_more(s: Seq<u8>, j: int)
    requires
        0 <= j <= s.len(),
    ensures
        j <= p_more(s, j).1 <= s.len(),
        p_more(s, j).0.len() <= p_more(s, j).1 - j,
    decreases s.len() - j,
{
    if byte_is(s, j, 32u8) && lower_run(s, j + 1) > 0 {
        lemma_lower_run(s, j + 1);
        lemma_p_more(s, j + 1 + lower_run(s, j + 1));
    }
}

proof fn lemma_p_list(s: Seq<u8>, i: int)
    requires
        0 <= i <= s.len(),
    ensures
        i <= p_list(s, i).1 <= s.len(),
        p_list(s, i).0.len() <= p_list(s, i).1 - i,
{
    lemma_lower_run(s, i);
    if let Some((n, j)) = p_ident(s, i) {
        lemma_p_more(s, j);
    }
}

proof fn lemma_p_item(s: Seq<u8>, i: int)
    requires
        0 <= i <= s.len(),
    ensures
        p_item(s, i) matches Some((m, j)) ==> i < j <= s.len() && 1 + m.1.len() <= j - i,
{
    lemma_lower_run(s, i);
    if let Some((name, i1)) = p_ident(s, i) {
        if matches_at(s, i1, seq![58u8, 32u8]) {
            lemma_p_list(s, i1 + 2);
        }
    }
}

#[verifier::loop_isolation(false)]
fn read_list(s: &[u8], i: usize) -> (res: (Vec<Vec<u8>>, usize))
    requires
        i <= s.len(),
    ensures
        p_list(s@, i as int) == (res.0@.map_values(|v: Vec<u8>| v@), res.1 as int),
{
    let mut out: Vec<Vec<u8>> = Vec::new();
    let e = lower_end(s, i);
    if e == i {
        assert(out@.map_values(|v: Vec<u8>| v@) =~= Seq::<Seq<u8>>::empty());
        return (out, i);
    }
    out.push(copy_range(s, i, e));
    let mut j = e;
    let ghost total = p_list(s@, i as int);
    proof {
        lemma_p_more(s@, j as int);
        assert(total == (out@.map_values(|v: Vec<u8>| v@) + p_more(s@, j as int).0, p_more(s@, j as int).1));
    }
    loop
        invariant
            i < j <= s.len(),
            total == p_list(s@, i as int),
            total == (out@.map_values(|v: Vec<u8>| v@) + p_more(s@, j as int).0, p_more(s@, j as int).1),
        decreases s.len() - j,
    {
        if !at(s, j, 32u8) {
            break;
        }
        let e2 = lower_end(s, j + 1);
        if e2 == j + 1 {
            break;
        }
        let ghost before = out@.map_values(|v: Vec<u8>| v@);
        let w = copy_range(s, j + 1, e2);
        out.push(w);
        proof {
            lemma_p_more(s@, e2 as int);
            assert(out@.map_values(|v: Vec<u8>| v@) =~= before.push(s@.subrange(j + 1, e2 as int)));
            let r = p_more(s@, e2 as int);
            assert(before + (seq![s@.subrange(j + 1, e2 as int)] + r.0) =~= out@.map_values(|v: Vec<u8>| v@) + r.0);
        }
        j = e2;
    }
    assert(out@.map_values(|v: Vec<u8>| v@) + Seq::<Seq<u8>>::empty() =~= out@.map_values(|v: Vec<u8>| v@));
    (out, j)
}

/// A parsed line: its name and the names it is wired to.
pub open spec fn item_view(m: (Vec<u8>, Vec<Vec<u8>>)) -> (Seq<u8>, Seq<Seq<u8>>) {
    (m.0@, m.1@.map_values(|v: Vec<u8>| v@))
}

fn read_item(s: &[u8], i: usize) -> (res: Option<((Vec<u8>, Vec<Vec<u8>>), usize)>)
    requires
        i <= s.len(),
    ensures
        match p_item(s@, i as int) {
            Some((m, j)) => res matches Some((m2, k)) && item_view(m2) == m && k as int == j,
            None => res is None,
        },
{
    let i1 = lower_end(s, i);
    if i1 == i {
        return None;
    }
    let name = copy_range(s, i, i1);
    let colon: Vec<u8> = vec![58u8, 32u8];
    assert(colon@ =~= seq![58u8, 32u8]);
    if !starts_with_at(s, i1, colon.as_slice()) {
        return None;
    }
    let (tos, i2) = read_list(s, i1 + 2);
    proof {
        lemma_p_list(s@, i1 + 2);
    }
    if at(s, i2, 10u8) {
        Some(((name, tos), i2 + 1))
    } else if i2 == s.len() {
        Some(((name, tos), i2))
    } else {
        None
    }
}

/// The number of names on the first `k` lines.
pub open spec fn name_count(items: Seq<(Seq<u8>, Seq<Seq<u8>>)>, k: int) -> int
    decreases k,
{
    if k <= 0 { 0 } else { name_count(items, k - 1) + 1 + items[k - 1].1.len() }
}

/// The index of `x` in the table of names, the latest entry first.
pub open spec fn name_index(names: Seq<Seq<u8>>, x: Seq<u8>) -> Option<int>
    decreases names.len(),
{
    if names.len() == 0 {
        None
    } else if names.last() == x {
        Some(names.len() - 1)
    } else {
        name_index(names.drop_last(), x)
    }
}

/// The table with `x` added if it is new, and the index of `x`.
pub open spec fn intern(names: Seq<Seq<u8>>, x: Seq<u8>) -> (Seq<Seq<u8>>, int) {
    match name_index(names, x) {
        Some(i) => (names, i),
        None => (names.push(x), names.len() as int),
    }
}

/// The first `k` names of `tos` wired from node `from`, each an edge of
/// weight 1.
pub open spec fn wire(names: Seq<Seq<u8>>, es: Seq<EdgeV>, from: int, tos: Seq<Seq<u8>>, k: int) -> (Seq<Seq<u8>>, Seq<EdgeV>)
    decreases k,
{
    if k <= 0 {
        (names, es)
    } else {
        let (n1, e1) = wire(names, es, from, tos, k - 1);
        let (n2, t) = intern(n1, tos[k - 1]);
        (n2, e1.push((from, t, 1usize)))
    }
}

/// The table of names and the edges after the first `k` lines.
pub open spec fn build(items: Seq<(Seq<u8>, Seq<Seq<u8>>)>, k: int) -> (Seq<Seq<u8>>, Seq<EdgeV>)
    decreases k,
{
    if k <= 0 {
        (Seq::empty(), Seq::empty())
    } else {
        let (n0, e0) = build(items, k - 1);
        let (n1, f) = intern(n0, items[k - 1].0);
        wire(n1, e0, f, items[k - 1].1, items[k - 1].1.len() as int)
    }
}

/// Node weights of 1 for `n` nodes.
pub open spec fn ones(n: int) -> Seq<int> {
    Seq::new(n as nat, |i: int| 1int)
}

proof fn lemma_name_index(names: Seq<Seq<u8>>, x: Seq<u8>)
    ensures
        name_index(names, x) matches Some(i) ==> 0 <= i < names.len() && names[i] == x,
    decreases names.len(),
{
    if names.len() > 0 && names.last() != x {
        lemma_name_index(names.drop_last(), x);
    }
}

/// Finds `x` in the table of names, or adds it with a node of weight 1.
#[verifier::loop_isolation(false)]
fn intern_node(names: &mut Vec<Vec<u8>>, g: &mut UnGraph<usize, usize>, x: &Vec<u8>) -> (res: usize)
    requires
        cg_weights(*old(g)) == ones(old(names)@.len() as int),
        old(names)@.len() + 1 < u32::MAX,
    ensures
        final(names)@.map_values(|v: Vec<u8>| v@) == intern(old(names)@.map_values(|v: Vec<u8>| v@), x@).0,
        res as int == intern(old(names)@.map_values(|v: Vec<u8>| v@), x@).1,
        cg_weights(*final(g)) == ones(final(names)@.len() as int),
        cg_edges(*final(g)) == cg_edges(*old(g)),
        res < final(names)@.len(),
        final(names)@.len() <= old(names)@.len() + 1,
{
    let ghost nv = names@.map_values(|v: Vec<u8>| v@);
    let mut i = names.len();
    assert(nv.take(i as int) =~= nv);
    while i > 0
        invariant
            i <= names@.len(),
            nv == names@.map_values(|v: Vec<u8>| v@),
            name_index(nv, x@) == name_index(nv.take(i as int), x@),
        decreases i,
    {
        assert(nv.take(i as int).drop_last() =~= nv.take(i - 1));
        if same_bytes(names[i - 1].as_slice(), x.as_slice()) {
            return i - 1;
        }
        i -= 1;
    }
    let id = cg_add_node(g, 1);
    let c = copy_range(x.as_slice(), 0, x.len());
    assert(c@ =~= x@);
    names.push(c);
    assert(names@.map_values(|v: Vec<u8>| v@) =~= nv.push(x@));
    assert(cg_weights(*g) =~= ones(names@.len() as int));
    id
}

/// Reads the wiring diagram and builds its graph: a node of weight 1 for
/// each name, in the order the names first occur, and an edge of weight 1
/// for each wire, in the order of the lines.
#[verifier::loop_isolation(false)]
pub fn input_gen(input: &[u8]) -> (res: Result<UnGraph<usize, usize>, ParseError>)
    requires
        input@.len() < u32::MAX,
    ensures
        match res {
            Ok(g) => spec_items(input@) matches Some(it) && cg_weights(g) == ones(build(it, it.len() as int).0.len() as int)
                && cg_edges(g) == build(it, it.len() as int).1,
            Err(e) => e == ParseError::Syntax && spec_items(input@) is None,
        },
{
    let mut items: Vec<(Vec<u8>, Vec<Vec<u8>>)> = Vec::new();
    let mut i: usize = 0;
    let ghost total = p_items(input@, 0);
    loop
        invariant
            i <= input@.len(),
            total == p_items(input@, 0),
            (items@.map_values(|m: (Vec<u8>, Vec<Vec<u8>>)| item_view(m)) + p_items(input@, i as int).0, p_items(input@, i as int).1) == total,
            name_count(items@.map_values(|m: (Vec<u8>, Vec<Vec<u8>>)| item_view(m)), items@.len() as int) <= i,
        decreases input@.len() - i,
    {
        proof {
            lemma_p_item(input@, i as int);
        }
        match read_item(input, i) {
            Some((m, j)) => {
                let ghost before = items@.map_values(|m: (Vec<u8>, Vec<Vec<u8>>)| item_view(m));
                let ghost r = p_items(input@, j as int);
                let ghost mv = item_view(m);
                items.push(m);
                assert(items@.map_values(|m: (Vec<u8>, Vec<Vec<u8>>)| item_view(m)) =~= before.push(mv));
                assert(before + (seq![mv] + r.0) =~= items@.map_values(|m: (Vec<u8>, Vec<Vec<u8>>)| item_view(m)) + r.0);
                proof {
                    lemma_name_count_push(before, mv, before.len() as int);
                }
                i = j;
            },
            None => {
                assert(items@.map_values(|m: (Vec<u8>, Vec<Vec<u8>>)| item_view(m)) + Seq::<(Seq<u8>, Seq<Seq<u8>>)>::empty()
                    =~= items@.map_values(|m: (Vec<u8>, Vec<Vec<u8>>)| item_view(m)));
                break;
            },
        }
    }
    if items.len() == 0 || i != input.len() {
        return Err(ParseError::Syntax);
    }
    let ghost it = items@.map_values(|m: (Vec<u8>, Vec<Vec<u8>>)| item_view(m));
    let mut g = cg_new();
    let mut names: Vec<Vec<u8>> = Vec::new();
    let mut k: usize = 0;
    assert(cg_weights(g) =~= ones(0));
    while k < items.len()
        invariant
            it == items@.map_values(|m: (Vec<u8>, Vec<Vec<u8>>)| item_view(m)),
            name_count(it, it.len() as int) < u32::MAX,
            k <= items@.len(),
            names@.map_values(|v: Vec<u8>| v@) == build(it, k as int).0,
            cg_edges(g) == build(it, k as int).1,
            cg_weights(g) == ones(names@.len() as int),
            names@.len() <= name_count(it, k as int),
            cg_edges(g).len() <= name_count(it, k as int),
        decreases items@.len() - k,
    {
        proof {
            lemma_name_count_mono(it, k + 1, it.len() as int);
        }
        let from = intern_node(&mut names, &mut g, &items[k].0);
        let ghost tos = it[k as int].1;
        let ghost n1 = names@.map_values(|v: Vec<u8>| v@);
        let ghost e1 = cg_edges(g);
        let mut t: usize = 0;
        assert(items[k as int].1@.map_values(|v: Vec<u8>| v@) == tos);
        while t < items[k].1.len()
            invariant
                it == items@.map_values(|m: (Vec<u8>, Vec<Vec<u8>>)| item_view(m)),
                k < items@.len(),
                tos == it[k as int].1,
                tos == items[k as int].1@.map_values(|v: Vec<u8>| v@),
                name_count(it, k + 1) < u32::MAX,
                name_count(it, k + 1) == name_count(it, k as int) + 1 + tos.len(),
                t <= tos.len(),
                from < names@.len(),
                (names@.map_values(|v: Vec<u8>| v@), cg_edges(g)) == wire(n1, e1, from as int, tos, t as int),
                cg_weights(g) == ones(names@.len() as int),
                names@.len() <= name_count(it, k as int) + 1 + t,
                cg_edges(g).len() <= name_count(it, k as int) + t,
            decreases tos.len() - t,
        {
            let ghost before = names@.map_values(|v: Vec<u8>| v@);
            assert(tos[t as int] == items[k as int].1@[t as int]@);
            let to = intern_node(&mut names, &mut g, &items[k].1[t]);
            cg_add_edge(&mut g, from, to, 1);
            t += 1;
        }
        k += 1;
    }
    assert(it.len() == items@.len());
    Ok(g)
}

proof fn lemma_name_count_prefix(items: Seq<(Seq<u8>, Seq<Seq<u8>>)>, m: (Seq<u8>, Seq<Seq<u8>>), k: int)
    requires
        0 <= k <= items.len(),
    ensures
        name_count(items.push(m), k) == name_count(items, k),
    decreases k,
{
    if k > 0 {
        lemma_name_count_prefix(items, m, k - 1);
    }
}

proof fn lemma_name_count_push(items: Seq<(Seq<u8>, Seq<Seq<u8>>)>, m: (Seq<u8>, Seq<Seq<u8>>), k: int)
    requires
        k == items.len(),
    ensures
        name_count(items.push(m), items.len() as int + 1) == name_count(items, items.len() as int) + 1 + m.1.len(),
{
    lemma_name_count_prefix(items, m, k);
}

proof fn lemma_name_count_mono(items: Seq<(Seq<u8>, Seq<Seq<u8>>)>, a: int, b: int)
    requires
        0 <= a <= b,
    ensures
        name_count(items, a) <= name_count(items, b),
    decreases b,
{
    if a < b {
        lemma_name_count_mono(items, a, b - 1);
    }
}

} // verus!
