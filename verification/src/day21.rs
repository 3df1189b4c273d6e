//! Step counter: the garden plots that the elf can reach in an exact
//! number of steps, on the map or on its endless repetition.
use vstd::prelude::*;
use std::collections::HashSet;
use ndarray::{Array2, ShapeError};
use crate::arrays::{flatten, reshape, MapError};
use crate::grid::{lemma_rows_from_alpha, spec_grid, parse_grid};
use crate::text::rows_view;

verus! {

broadcast use vstd::std_specs::hash::group_hash_axioms;

/// A tile of the garden.
#[derive(Debug, Clone, Copy, PartialEq, Eq, Hash, Structural)]
pub enum Tile {
    Plot,
    Rock,
    Start,
}

/// The garden, held in an `ndarray` array.
#[verifier::external_body]
pub struct Garden {
    data: Array2<Tile>,
}

/// The plots and rocks of a garden, row by row.
pub uninterp spec fn garden_rows(p: Garden) -> Seq<Seq<Tile>>;

/// The number of tiles in each row of a garden.
pub uninterp spec fn garden_width(p: Garden) -> nat;

/// `Array2::from_shape_vec` with the shape `(h, w)`: it succeeds exactly
/// when `flat` holds `h * w` items and that count fits in an `isize`, and the
/// array then holds `flat` row after row.
#[verifier::external_body]
fn garden_from_shape_vec(h: usize, w: usize, flat: Vec<Tile>) -> (res: Result<Garden, ShapeError>)
    requires
        h >= 1,
        w >= 1,
    ensures
        res is Ok <==> (h * w == flat@.len() && h * w <= isize::MAX),
        res matches Ok(p) ==> garden_width(p) == w && garden_rows(p) == reshape(flat@, h as int, w as int),
{
    match Array2::from_shape_vec((h, w), flat) {
        Ok(data) => Ok(Garden { data }),
        Err(e) => Err(e),
    }
}

/// `ArrayBase::dim` on a garden: its number of rows and of tiles per row.
#[verifier::external_body]
fn garden_dim(p: &Garden) -> (res: (usize, usize))
    ensures
        res.0 == garden_rows(*p).len() && res.1 == garden_width(*p) && forall|y: int|
            0 <= y < res.0 ==> (#[trigger] garden_rows(*p)[y]).len() == res.1,
{
    p.data.dim()
}

/// Indexing a garden by `(row, column)`.
#[verifier::external_body]
fn garden_at(p: &Garden, y: usize, x: usize) -> (res: Tile)
    requires
        y < garden_rows(*p).len(),
        x < garden_width(*p),
    ensures
        res == garden_rows(*p)[y as int][x as int],
{
    p.data[(y, x)]
}

pub open spec fn tile_alpha() -> Seq<u8> {
    seq![46u8, 35u8, 83u8]
}

/// `.` is a garden plot, `#` a rock, `S` the starting plot.
pub open spec fn tile_of(c: u8) -> Tile {
    if c == 83u8 {
        Tile::Start
    } else if c == 35u8 {
        Tile::Rock
    } else {
        Tile::Plot
    }
}

pub open spec fn tiles_of(rows: Seq<Seq<u8>>) -> Seq<Tile> {
    flatten(rows).map_values(|c: u8| tile_of(c))
}

/// Reads the garden: lines of `.`, `#` and `S`, the first of which gives the width, all of them read row after
/// row into an array of that width.
pub fn input_gen(input: &[u8]) -> (res: Result<Garden, MapError>)
    ensures
        match spec_grid(input@, tile_alpha(), true) {
            None => res == Err::<Garden, MapError>(MapError::Syntax),
            Some(rows) => {
                let h = rows.len() as int;
                let w = rows[0].len() as int;
                let flat = tiles_of(rows);
                if h * w == flat.len() && h * w <= isize::MAX {
                    res matches Ok(p) && garden_width(p) == w && garden_rows(p) == reshape(flat, h, w)
                } else {
                    res == Err::<Garden, MapError>(MapError::Shape)
                }
            },
        },
{
    let alpha: Vec<u8> = vec![46u8, 35u8, 83u8];
    assert(alpha@ =~= tile_alpha());
    let rows = match parse_grid(input, alpha.as_slice(), true) {
        Ok(rows) => rows,
        Err(_) => return Err(MapError::Syntax),
    };
    let ghost rv = rows_view(rows@);
    proof {
        lemma_rows_from_alpha(input@, 0, tile_alpha());
    }
    let mut flat: Vec<Tile> = Vec::new();
    let mut y: usize = 0;
    while y < rows.len()
        invariant
            y <= rows@.len(),
            rv == rows_view(rows@),
            flat@ == tiles_of(rv.take(y as int)),
        decreases rows@.len() - y,
    {
        let ghost before = flat@;
        let mut x: usize = 0;
        while x < rows[y].len()
            invariant
                y < rows@.len(),
                x <= rows@[y as int]@.len(),
                flat@ == before + rows@[y as int]@.take(x as int).map_values(|c: u8| tile_of(c)),
            decreases rows@[y as int]@.len() - x,
        {
            let c = rows[y][x];
            let t = if c == 83u8 {
                Tile::Start
            } else if c == 35u8 {
                Tile::Rock
            } else {
                Tile::Plot
            };
            flat.push(t);
            assert(rows@[y as int]@.take(x + 1).map_values(|c: u8| tile_of(c))
                =~= rows@[y as int]@.take(x as int).map_values(|c: u8| tile_of(c)).push(tile_of(c)));
            x += 1;
        }
        proof {
            assert(rows@[y as int]@.take(x as int) =~= rows@[y as int]@);
            assert(rv[y as int] == rows@[y as int]@);
            assert(rv.take(y + 1).drop_last() =~= rv.take(y as int));
            assert(tiles_of(rv.take(y + 1)) =~= tiles_of(rv.take(y as int)) + rv[y as int].map_values(|c: u8| tile_of(c)));
        }
        y += 1;
    }
    assert(rv.take(rows@.len() as int) =~= rv);
    let h = rows.len();
    let w = rows[0].len();
    assert(rv[0] == rows@[0]@);
    assert(rv[0].len() > 0);
    match garden_from_shape_vec(h, w, flat) {
        Ok(p) => Ok(p),
        Err(_) => Err(MapError::Shape),
    }
}



/// Whether the position `(y, x)` of the endless garden, in which the map
/// repeats in every direction, is no rock.
pub open spec fn open_at(g: Garden, y: int, x: int) -> bool {
    garden_rows(g)[y % (garden_rows(g).len() as int)][x % (garden_width(g) as int)] != Tile::Rock
}

/// The position `n` is one step north, south, west or east of `c`.
pub open spec fn adjacent(c: (int, int), n: (int, int)) -> bool {
    ||| n.0 == c.0 - 1 && n.1 == c.1
    ||| n.0 == c.0 + 1 && n.1 == c.1
    ||| n.0 == c.0 && n.1 == c.1 - 1
    ||| n.0 == c.0 && n.1 == c.1 + 1
}

/// The position is on the map itself.
pub open spec fn on_map(g: Garden, c: (int, int)) -> bool {
    0 <= c.0 < garden_rows(g).len() && 0 <= c.1 < garden_width(g)
}

/// The positions first reached in a step from the frontier `f`: those that
/// are no rock, not yet visited (`v`), and next to a position of `f` from
/// which the walk goes on (any, in the endless garden; those on the map,
/// otherwise).
pub open spec fn discovered(g: Garden, infinite: bool, f: Set<(int, int)>, v: Set<(int, int)>) -> Set<(int, int)> {
    Set::new(|n: (int, int)| !v.contains(n) && open_at(g, n.0, n.1) && exists|c: (int, int)|
        #[trigger] f.contains(c) && (infinite || on_map(g, c)) && adjacent(c, n))
}

/// Whether the positions first reached in step `i` (counting from 0) are
/// counted: those an odd number of steps away when `steps` is odd, an even
/// number when it is even.
pub open spec fn counts_at(steps: int, i: int) -> bool {
    let even = (steps + 1) % 2 == 0;
    (i % 2 == 0 && even) || (i % 2 == 1 && !even)
}

/// The walk after `k` steps from `s`: the positions visited (the start
/// itself only once it is reached again), the positions first reached in
/// the last step, and the count so far.
pub open spec fn walk(g: Garden, s: (int, int), infinite: bool, steps: int, k: nat) -> (Set<(int, int)>, Set<(int, int)>, int)
    decreases k,
{
    if k == 0 {
        (Set::empty(), set![s], 0)
    } else {
        let prev = walk(g, s, infinite, steps, (k - 1) as nat);
        let n = discovered(g, infinite, prev.1, prev.0);
        (prev.0.union(n), n, prev.2 + if counts_at(steps, k - 1) { n.len() as int } else { 0 })
    }
}

/// The first start tile in reading order.
pub open spec fn first_in_row(r: Seq<Tile>, x: int) -> int
    decreases r.len() - x,
{
    if x < 0 || x >= r.len() {
        -1
    } else if r[x] == Tile::Start {
        x
    } else {
        first_in_row(r, x + 1)
    }
}

/// The position of the first start tile in reading order, from row `y` on.
pub open spec fn start_from(rows: Seq<Seq<Tile>>, y: int) -> (int, int)
    decreases rows.len() - y,
{
    if y < 0 || y >= rows.len() {
        (-1, -1)
    } else if first_in_row(rows[y], 0) >= 0 {
        (y, first_in_row(rows[y], 0))
    } else {
        start_from(rows, y + 1)
    }
}

/// The garden has a start tile.
pub open spec fn has_start(g: Garden) -> bool {
    exists|y: int, x: int| 0 <= y < garden_rows(g).len() && 0 <= x < garden_width(g) && #[trigger] garden_rows(g)[y][x] == Tile::Start
}

/// The number of plots counted by the walk of `steps` steps (none when
/// `steps` is not positive).
pub open spec fn reachable(g: Garden, steps: int, infinite: bool) -> int {
    walk(g, start_from(garden_rows(g), 0), infinite, steps, if steps > 0 { steps as nat } else { 0 }).2
}

/// The walk stays within the range in which positions are packed into keys.
pub open spec fn walk_fits(g: Garden, steps: int) -> bool {
    &&& 1 <= garden_rows(g).len() <= 0x4000_0000
    &&& 1 <= garden_width(g) <= 0x4000_0000
    &&& steps <= 0x4000_0000
}

/// The distance of `p` from `s`, in steps.
pub open spec fn dist(s: (int, int), p: (int, int)) -> int {
    (if p.0 >= s.0 { p.0 - s.0 } else { s.0 - p.0 }) + (if p.1 >= s.1 { p.1 - s.1 } else { s.1 - p.1 })
}

proof fn lemma_walk_near(g: Garden, s: (int, int), infinite: bool, steps: int, k: nat)
    ensures
        forall|p: (int, int)| #[trigger] walk(g, s, infinite, steps, k).0.contains(p) ==> dist(s, p) <= k,
        forall|p: (int, int)| #[trigger] walk(g, s, infinite, steps, k).1.contains(p) ==> dist(s, p) <= k,
    decreases k,
{
    if k > 0 {
        lemma_walk_near(g, s, infinite, steps, (k - 1) as nat);
        let prev = walk(g, s, infinite, steps, (k - 1) as nat);
        assert forall|p: (int, int)| #[trigger] discovered(g, infinite, prev.1, prev.0).contains(p) implies dist(s, p) <= k by {
            let c = choose|c: (int, int)| #[trigger] prev.1.contains(c) && (infinite || on_map(g, c)) && adjacent(c, p);
            assert(dist(s, c) <= k - 1);
        }
    }
}


/// The rectangle of positions with rows in `[a, b)` and columns in `[c, d)`.
pub open spec fn rect(a: int, b: int, c: int, d: int) -> Set<(int, int)> {
    Set::new(|p: (int, int)| a <= p.0 < b && c <= p.1 < d)
}

proof fn lemma_row_len(y: int, c: int, d: int)
    requires
        c <= d,
    ensures
        rect(y, y + 1, c, d).finite(),
        rect(y, y + 1, c, d).len() == d - c,
    decreases d - c,
{
    if c == d {
        assert(rect(y, y + 1, c, d) =~= Set::empty());
    } else {
        lemma_row_len(y, c, d - 1);
        assert(rect(y, y + 1, c, d) =~= rect(y, y + 1, c, d - 1).insert((y, d - 1)));
    }
}

proof fn lemma_rect_len(a: int, b: int, c: int, d: int)
    requires
        a <= b,
        c <= d,
    ensures
        rect(a, b, c, d).finite(),
        rect(a, b, c, d).len() == (b - a) * (d - c),
    decreases b - a,
{
    if a == b {
        assert(rect(a, b, c, d) =~= Set::empty());
    } else {
        lemma_rect_len(a, b - 1, c, d);
        lemma_row_len(b - 1, c, d);
        assert(rect(a, b, c, d) =~= rect(a, b - 1, c, d) + rect(b - 1, b, c, d));
        assert(rect(a, b - 1, c, d).disjoint(rect(b - 1, b, c, d)));
        vstd::set_lib::lemma_set_disjoint_lens(rect(a, b - 1, c, d), rect(b - 1, b, c, d));
        assert((b - 1 - a) * (d - c) + (d - c) == (b - a) * (d - c)) by (nonlinear_arith);
    }
}

/// Positions whose coordinates fit the packing into keys.
pub open spec fn in_range(p: (int, int)) -> bool {
    -0x8000_0000 < p.0 < 0x8000_0000 && -0x8000_0000 < p.1 < 0x8000_0000
}

/// The key under which a position is kept in the set of visited positions.
pub open spec fn key(p: (int, int)) -> int {
    (p.0 + 0x8000_0000) * 0x1_0000_0000 + (p.1 + 0x8000_0000)
}

proof fn lemma_key(p: (int, int), q: (int, int))
    requires
        in_range(p),
        in_range(q),
    ensures
        0 <= key(p) <= u64::MAX,
        key(p) == key(q) ==> p == q,
{
    assert(0 <= key(p) <= u64::MAX) by (nonlinear_arith)
        requires
            in_range(p),
    ;
    assert(key(p) == key(q) ==> p.0 == q.0 && p.1 == q.1) by (nonlinear_arith)
        requires
            in_range(p),
            in_range(q),
    ;
}

fn pack(p: (i64, i64)) -> (res: u64)
    requires
        in_range((p.0 as int, p.1 as int)),
    ensures
        res == key((p.0 as int, p.1 as int)),
{
    proof {
        lemma_key((p.0 as int, p.1 as int), (p.0 as int, p.1 as int));
    }
    let y = (p.0 + 0x8000_0000) as u64;
    let x = (p.1 + 0x8000_0000) as u64;
    y * 0x1_0000_0000 + x
}

/// The set `visited` of keys holds the keys of the positions of `v`.
pub open spec fn keeps(visited: Set<u64>, v: Set<(int, int)>) -> bool {
    forall|p: (int, int)| in_range(p) ==> (#[trigger] visited.contains(key(p) as u64) <==> v.contains(p))
}

/// The list `l` holds exactly the positions of `f`.
pub open spec fn lists(l: Seq<(i64, i64)>, f: Set<(int, int)>) -> bool {
    &&& forall|t: int| 0 <= t < l.len() ==> in_range(pos(#[trigger] l[t]))
    &&& forall|p: (int, int)| f.contains(p) <==> exists|t: int| 0 <= t < l.len() && pos(#[trigger] l[t]) == p
}

/// The position reached from `c` in direction `r` (north, south, west, east).
pub open spec fn cand(c: (int, int), r: int) -> (int, int) {
    if r == 0 {
        (c.0 - 1, c.1)
    } else if r == 1 {
        (c.0 + 1, c.1)
    } else if r == 2 {
        (c.0, c.1 - 1)
    } else {
        (c.0, c.1 + 1)
    }
}

pub open spec fn pos(c: (i64, i64)) -> (int, int) {
    (c.0 as int, c.1 as int)
}

/// The positions first reached from the first `j` positions of the list
/// `l`, and from the first `q` directions of position `j`.
pub open spec fn reached_part(g: Garden, infinite: bool, l: Seq<(i64, i64)>, v: Set<(int, int)>, j: int, q: int) -> Set<(int, int)> {
    Set::new(|n: (int, int)| !v.contains(n) && open_at(g, n.0, n.1) && (
        (exists|t: int| 0 <= t < j && (infinite || on_map(g, pos(l[t]))) && #[trigger] adjacent(pos(l[t]), n))
        || (infinite || on_map(g, pos(l[j]))) && exists|r: int| 0 <= r < q && n == #[trigger] cand(pos(l[j]), r)))
}


proof fn lemma_part_next(g: Garden, infinite: bool, l: Seq<(i64, i64)>, v: Set<(int, int)>, j: int)
    requires
        0 <= j < l.len(),
    ensures
        reached_part(g, infinite, l, v, j, 4) == reached_part(g, infinite, l, v, j + 1, 0),
{
    let a = reached_part(g, infinite, l, v, j, 4);
    let b = reached_part(g, infinite, l, v, j + 1, 0);
    assert forall|n: (int, int)| a.contains(n) implies b.contains(n) by {
        if !(exists|t: int| 0 <= t < j && (infinite || on_map(g, pos(l[t]))) && #[trigger] adjacent(pos(l[t]), n)) {
            let r = choose|r: int| 0 <= r < 4 && n == #[trigger] cand(pos(l[j]), r);
            assert(adjacent(pos(l[j]), n));
        }
    }
    assert forall|n: (int, int)| b.contains(n) implies a.contains(n) by {
        if !(exists|t: int| 0 <= t < j && (infinite || on_map(g, pos(l[t]))) && #[trigger] adjacent(pos(l[t]), n)) {
            let t = choose|t: int| 0 <= t < j + 1 && (infinite || on_map(g, pos(l[t]))) && #[trigger] adjacent(pos(l[t]), n);
            assert(t == j);
            let c = pos(l[j]);
            if n == cand(c, 0) {
            } else if n == cand(c, 1) {
                assert(n == cand(c, 1));
            } else if n == cand(c, 2) {
                assert(n == cand(c, 2));
            } else {
                assert(n == cand(c, 3));
            }
        }
    }
    assert(a =~= b);
}

proof fn lemma_part_all(g: Garden, infinite: bool, l: Seq<(i64, i64)>, f: Set<(int, int)>, v: Set<(int, int)>)
    requires
        lists(l, f),
    ensures
        reached_part(g, infinite, l, v, l.len() as int, 0) == discovered(g, infinite, f, v),
{
    let a = reached_part(g, infinite, l, v, l.len() as int, 0);
    let b = discovered(g, infinite, f, v);
    assert forall|n: (int, int)| a.contains(n) implies b.contains(n) by {
        let t = choose|t: int| 0 <= t < l.len() && (infinite || on_map(g, pos(l[t]))) && #[trigger] adjacent(pos(l[t]), n);
        let c = pos(l[t]);
        assert(f.contains(c));
    }
    assert forall|n: (int, int)| b.contains(n) implies a.contains(n) by {
        let c = choose|c: (int, int)| #[trigger] f.contains(c) && (infinite || on_map(g, c)) && adjacent(c, n);
        let t = choose|t: int| 0 <= t < l.len() && pos(#[trigger] l[t]) == c;
        assert(adjacent(pos(l[t]), n));
    }
    assert(a =~= b);
}


proof fn lemma_part_step(g: Garden, infinite: bool, l: Seq<(i64, i64)>, v: Set<(int, int)>, j: int, q: int)
    requires
        0 <= j < l.len(),
        0 <= q < 4,
    ensures
        reached_part(g, infinite, l, v, j, q + 1) == {
            let n = cand(pos(l[j]), q);
            if (infinite || on_map(g, pos(l[j]))) && open_at(g, n.0, n.1) && !v.contains(n) {
                reached_part(g, infinite, l, v, j, q).insert(n)
            } else {
                reached_part(g, infinite, l, v, j, q)
            }
        },
{
    let a = reached_part(g, infinite, l, v, j, q + 1);
    let b = reached_part(g, infinite, l, v, j, q);
    let n = cand(pos(l[j]), q);
    assert forall|m: (int, int)| a.contains(m) implies (b.contains(m) || m == n) by {
        if !(exists|t: int| 0 <= t < j && (infinite || on_map(g, pos(l[t]))) && #[trigger] adjacent(pos(l[t]), m)) {
            let r = choose|r: int| 0 <= r < q + 1 && m == #[trigger] cand(pos(l[j]), r);
            if r < q {
                assert(b.contains(m));
            }
        }
    }
    assert forall|m: (int, int)| b.contains(m) implies a.contains(m) by {
        if !(exists|t: int| 0 <= t < j && (infinite || on_map(g, pos(l[t]))) && #[trigger] adjacent(pos(l[t]), m)) {
            let r = choose|r: int| 0 <= r < q && m == #[trigger] cand(pos(l[j]), r);
            assert(0 <= r < q + 1);
        }
    }
    if (infinite || on_map(g, pos(l[j]))) && open_at(g, n.0, n.1) && !v.contains(n) {
        assert(a.contains(n));
        assert(a =~= b.insert(n));
    } else {
        assert(a =~= b);
    }
}

/// Whether the endless garden is no rock at `(y, x)`.
fn open_exec(map: &Garden, h: usize, w: usize, y: i64, x: i64) -> (res: bool)
    requires
        h == garden_rows(*map).len(),
        w == garden_width(*map),
        1 <= h <= 0x4000_0000,
        1 <= w <= 0x4000_0000,
        in_range((y as int, x as int)),
    ensures
        res == open_at(*map, y as int, x as int),
{
    let hh = h as i64;
    let ww = w as i64;
    let ya = (y + hh * 0x1_0000_0000) as u64;
    let xa = (x + ww * 0x1_0000_0000) as u64;
    let wy = (ya % (h as u64)) as usize;
    let wx = (xa % (w as u64)) as usize;
    proof {
        vstd::arithmetic::div_mod::lemma_mod_multiples_vanish(0x1_0000_0000, y as int, h as int);
        vstd::arithmetic::div_mod::lemma_mod_multiples_vanish(0x1_0000_0000, x as int, w as int);
        assert(h * 0x1_0000_0000 + y == ya);
        assert(w * 0x1_0000_0000 + x == xa);
    }
    garden_at(map, wy, wx) != Tile::Rock
}


/// The garden is a rectangle of `h` rows of `w` tiles, small enough for the
/// walk's arithmetic.
pub open spec fn garden_ok(g: Garden, h: int, w: int) -> bool {
    &&& h == garden_rows(g).len()
    &&& w == garden_width(g)
    &&& 1 <= h <= 0x4000_0000
    &&& 1 <= w <= 0x4000_0000
    &&& forall|y: int| 0 <= y < h ==> (#[trigger] garden_rows(g)[y]).len() == w
}

/// One step of the walk: visits the positions first reached from those of
/// `cur` (the frontier `f`), counts them when `counted`, and returns them.
fn step(
    map: &Garden,
    h: usize,
    w: usize,
    infinite: bool,
    counted: bool,
    cur: &Vec<(i64, i64)>,
    visited: &mut HashSet<u64>,
    cnt: &mut i64,
    Ghost(s): Ghost<(int, int)>,
    Ghost(k): Ghost<int>,
    Ghost(v0): Ghost<Set<(int, int)>>,
    Ghost(f): Ghost<Set<(int, int)>>,
) -> (next: Vec<(i64, i64)>)
    requires
        garden_ok(*map, h as int, w as int),
        0 <= s.0 < 0x4000_0000,
        0 <= s.1 < 0x4000_0000,
        0 <= k < 0x4000_0000,
        lists(cur@, f),
        v0.finite(),
        forall|p: (int, int)| #[trigger] v0.contains(p) ==> dist(s, p) <= k,
        forall|p: (int, int)| #[trigger] f.contains(p) ==> dist(s, p) <= k,
        keeps(old(visited)@, v0),
        0 <= *old(cnt) <= v0.len(),
    ensures
        discovered(*map, infinite, f, v0).finite(),
        lists(next@, discovered(*map, infinite, f, v0)),
        keeps(final(visited)@, v0.union(discovered(*map, infinite, f, v0))),
        *final(cnt) == *old(cnt) + if counted { discovered(*map, infinite, f, v0).len() as int } else { 0 },
        v0.union(discovered(*map, infinite, f, v0)).finite(),
        *final(cnt) <= v0.union(discovered(*map, infinite, f, v0)).len(),
{
    let ghost g = *map;
    let ghost cnt0 = *cnt as int;
    let ghost rbox = rect(s.0 - k - 1, s.0 + k + 2, s.1 - k - 1, s.1 + k + 2);
    proof {
        lemma_rect_len(s.0 - k - 1, s.0 + k + 2, s.1 - k - 1, s.1 + k + 2);
        assert((2 * k + 3) * (2 * k + 3) < i64::MAX) by (nonlinear_arith)
            requires
                0 <= k < 0x4000_0000,
        ;
        assert(v0.subset_of(rbox));
    }
    let ghost mut nn: Set<(int, int)> = Set::empty();
    assert(v0.union(nn) =~= v0);
    let mut next: Vec<(i64, i64)> = Vec::new();
    let mut j: usize = 0;
    while j < cur.len()
        invariant
            garden_ok(*map, h as int, w as int),
            g == *map,
            0 <= s.0 < 0x4000_0000,
            0 <= s.1 < 0x4000_0000,
            0 <= k < 0x4000_0000,
            lists(cur@, f),
            v0.finite(),
            forall|p: (int, int)| #[trigger] v0.contains(p) ==> dist(s, p) <= k,
            forall|p: (int, int)| #[trigger] f.contains(p) ==> dist(s, p) <= k,
            rbox == rect(s.0 - k - 1, s.0 + k + 2, s.1 - k - 1, s.1 + k + 2),
            rbox.finite(),
            rbox.len() < i64::MAX,
            v0.subset_of(rbox),
            j <= cur@.len(),
            nn == reached_part(g, infinite, cur@, v0, j as int, 0),
            nn.finite(),
            nn.subset_of(rbox),
            keeps(visited@, v0.union(nn)),
            lists(next@, nn),
            *cnt == cnt0 + if counted { nn.len() as int } else { 0 },
            0 <= cnt0,
            *cnt <= v0.union(nn).len(),
        decreases cur@.len() - j,
    {
        let c = cur[j];
        proof {
            assert(f.contains(pos(c)));
            assert(in_range(pos(c)));
        }
        let goes_on = infinite || (0 <= c.0 && c.0 < h as i64 && 0 <= c.1 && c.1 < w as i64);
        let mut q: usize = 0;
        while q < 4
            invariant
                garden_ok(*map, h as int, w as int),
                g == *map,
                0 <= s.0 < 0x4000_0000,
                0 <= s.1 < 0x4000_0000,
                0 <= k < 0x4000_0000,
                lists(cur@, f),
                v0.finite(),
                forall|p: (int, int)| #[trigger] v0.contains(p) ==> dist(s, p) <= k,
                dist(s, pos(c)) <= k,
                in_range(pos(c)),
                rbox == rect(s.0 - k - 1, s.0 + k + 2, s.1 - k - 1, s.1 + k + 2),
                rbox.finite(),
                rbox.len() < i64::MAX,
                v0.subset_of(rbox),
                j < cur@.len(),
                c == cur@[j as int],
                goes_on == (infinite || on_map(g, pos(c))),
                q <= 4,
                nn == reached_part(g, infinite, cur@, v0, j as int, q as int),
                nn.finite(),
                nn.subset_of(rbox),
                keeps(visited@, v0.union(nn)),
                lists(next@, nn),
                *cnt == cnt0 + if counted { nn.len() as int } else { 0 },
                0 <= cnt0,
                *cnt <= v0.union(nn).len(),
            decreases 4 - q,
        {
            proof {
                lemma_part_step(g, infinite, cur@, v0, j as int, q as int);
            }
            let n: (i64, i64) = if q == 0 {
                (c.0 - 1, c.1)
            } else if q == 1 {
                (c.0 + 1, c.1)
            } else if q == 2 {
                (c.0, c.1 - 1)
            } else {
                (c.0, c.1 + 1)
            };
            let ghost pn = pos(n);
            assert(pn == cand(pos(c), q as int));
            assert(dist(s, pn) <= k + 1);
            assert(in_range(pn));
            assert(rbox.contains(pn));
            if goes_on && open_exec(map, h, w, n.0, n.1) {
                let packed = pack(n);
                proof {
                    lemma_key(pn, pn);
                    assert(packed == key(pn) as u64);
                }
                if !visited.contains(&packed) {
                    proof {
                        assert(!visited@.contains(key(pn) as u64));
                        assert(!v0.contains(pn));
                        assert(!nn.contains(pn));
                        assert(v0.union(nn).insert(pn) =~= v0.union(nn.insert(pn)));
                        assert(v0.union(nn.insert(pn)).subset_of(rbox));
                        vstd::set_lib::lemma_len_subset(v0.union(nn.insert(pn)), rbox);
                    }
                    let ghost old_next = next@;
                    visited.insert(packed);
                    next.push(n);
                    proof {
                        let old_nn = nn;
                        nn = nn.insert(pn);
                        assert forall|p: (int, int)| in_range(p) implies (#[trigger] visited@.contains(key(p) as u64) <==> v0.union(nn).contains(p)) by {
                            lemma_key(p, pn);
                        }
                        assert forall|p: (int, int)| nn.contains(p) <==> exists|t: int| 0 <= t < next@.len() && pos(#[trigger] next@[t]) == p by {
                            if nn.contains(p) && p != pn {
                                assert(old_nn.contains(p));
                                let t = choose|t: int| 0 <= t < old_next.len() && pos(#[trigger] old_next[t]) == p;
                                assert(next@[t] == old_next[t]);
                            }
                            if nn.contains(p) && p == pn {
                                assert(pos(next@[next@.len() - 1]) == p);
                            }
                            if exists|t: int| 0 <= t < next@.len() && pos(#[trigger] next@[t]) == p {
                                let t = choose|t: int| 0 <= t < next@.len() && pos(#[trigger] next@[t]) == p;
                                if t < next@.len() - 1 {
                                    assert(next@[t] == old_next[t]);
                                }
                            }
                        }
                    }
                    if counted {
                        *cnt = *cnt + 1;
                    }
                } else {
                    proof {
                        assert(visited@.contains(key(pn) as u64));
                        assert(v0.union(nn).contains(pn));
                        if !v0.contains(pn) {
                            assert(nn.contains(pn));
                            assert(nn.insert(pn) =~= nn);
                        }
                    }
                }
            }
            q += 1;
        }
        proof {
            lemma_part_next(g, infinite, cur@, v0, j as int);
        }
        j += 1;
    }
    proof {
        lemma_part_all(g, infinite, cur@, f, v0);
    }
    next
}


/// The position of the first start tile in reading order.
fn find_start(map: &Garden, h: usize, w: usize) -> (res: (usize, usize))
    requires
        garden_ok(*map, h as int, w as int),
        has_start(*map),
    ensures
        res.0 < h,
        res.1 < w,
        (res.0 as int, res.1 as int) == start_from(garden_rows(*map), 0),
{
    let ghost rows = garden_rows(*map);
    let mut y: usize = 0;
    while y < h
        invariant
            garden_ok(*map, h as int, w as int),
            rows == garden_rows(*map),
            has_start(*map),
            y <= h,
            start_from(rows, 0) == start_from(rows, y as int),
            forall|yy: int, x: int| 0 <= yy < y && 0 <= x < w ==> #[trigger] rows[yy][x] != Tile::Start,
        decreases h - y,
    {
        let mut x: usize = 0;
        while x < w
            invariant
                garden_ok(*map, h as int, w as int),
                rows == garden_rows(*map),
                y < h,
                x <= w,
                start_from(rows, 0) == start_from(rows, y as int),
                first_in_row(rows[y as int], 0) == first_in_row(rows[y as int], x as int),
                forall|xx: int| 0 <= xx < x ==> #[trigger] rows[y as int][xx] != Tile::Start,
            decreases w - x,
        {
            if garden_at(map, y, x) == Tile::Start {
                proof {
                    assert(first_in_row(rows[y as int], 0) == x);
                    assert(start_from(rows, y as int) == (y as int, x as int));
                }
                return (y, x);
            }
            x += 1;
        }
        proof {
            assert(first_in_row(rows[y as int], 0) == -1);
        }
        y += 1;
    }
    proof {
        let (yy, xx) = choose|yy: int, xx: int| 0 <= yy < garden_rows(*map).len() && 0 <= xx < garden_width(*map)
            && #[trigger] garden_rows(*map)[yy][xx] == Tile::Start;
        assert(rows[yy][xx] != Tile::Start);
    }
    (0, 0)
}

/// The number of garden plots that the walk of `steps` steps from the start
/// counts (see `walk`): on the endless repetition of the map when
/// `infinite`, else stepping on only from positions of the map itself.
pub fn tiles_within_steps(map: &Garden, steps: i64, infinite: bool) -> (res: i64)
    requires
        has_start(*map),
        walk_fits(*map, steps as int),
    ensures
        res == reachable(*map, steps as int, infinite),
{
    let (h, w) = garden_dim(map);
    let ghost g = *map;
    let (sy, sx) = find_start(map, h, w);
    let ghost s = (sy as int, sx as int);
    let mut visited: HashSet<u64> = HashSet::new();
    let mut cur: Vec<(i64, i64)> = Vec::new();
    cur.push((sy as i64, sx as i64));
    let mut cnt: i64 = 0;
    let even = steps >= 0 && ((steps as u64) + 1) % 2 == 0;
    proof {
        let st = walk(g, s, infinite, steps as int, 0);
        assert(visited@ =~= Set::<u64>::empty());
        assert forall|p: (int, int)| st.1.contains(p) <==> exists|t: int| 0 <= t < cur@.len() && pos(#[trigger] cur@[t]) == p by {
            if st.1.contains(p) {
                assert(pos(cur@[0]) == p);
            }
        }
    }
    let mut i: i64 = 0;
    while i < steps
        invariant
            garden_ok(*map, h as int, w as int),
            g == *map,
            walk_fits(*map, steps as int),
            s == start_from(garden_rows(g), 0),
            0 <= s.0 < h,
            0 <= s.1 < w,
            0 <= i,
            steps <= 0 ==> i == 0,
            steps > 0 ==> i <= steps,
            even == (steps >= 0 && (steps + 1) % 2 == 0),
            lists(cur@, walk(g, s, infinite, steps as int, i as nat).1),
            keeps(visited@, walk(g, s, infinite, steps as int, i as nat).0),
            walk(g, s, infinite, steps as int, i as nat).0.finite(),
            cnt == walk(g, s, infinite, steps as int, i as nat).2,
            0 <= cnt <= walk(g, s, infinite, steps as int, i as nat).0.len(),
        decreases steps - i,
    {
        let ghost st = walk(g, s, infinite, steps as int, i as nat);
        let iu = i as u64;
        let counted = (iu % 2 == 0 && even) || (iu % 2 == 1 && !even);
        assert(counted == counts_at(steps as int, i as int));
        proof {
            lemma_walk_near(g, s, infinite, steps as int, i as nat);
        }
        let next = step(map, h, w, infinite, counted, &cur, &mut visited, &mut cnt, Ghost(s), Ghost(i as int), Ghost(st.0), Ghost(st.1));
        cur = next;
        i += 1;
    }
    cnt
}

/// The garden plots reachable in exactly 64 steps on the map.
pub fn part1(input: &Garden) -> (res: i64)
    requires
        has_start(*input),
        walk_fits(*input, 64),
    ensures
        res == reachable(*input, 64, false),
{
    tiles_within_steps(input, 64, false)
}

/// Halving that rounds toward zero, as `/` does on `i64`.
pub open spec fn half(d: int) -> int {
    if d >= 0 { d / 2 } else { -((-d) / 2) }
}

pub open spec fn fits(v: int) -> bool {
    i64::MIN < v <= i64::MAX
}

/// The quadratic through the values `n0`, `n1`, `n2` at 0, 1, 2 (its
/// leading coefficient halved toward zero), and whether its evaluation at
/// `x` stays within `i64`.
pub open spec fn quadratic(n0: int, n1: int, n2: int, x: int) -> (int, bool) {
    let d1_1 = n1 - n0;
    let d1_2 = n2 - n1;
    let d2 = d1_2 - d1_1;
    let a = half(d2);
    let b = d1_1 - a;
    let c = n0;
    (a * x * x + b * x + c,
     fits(d1_1) && fits(d1_2) && fits(d2) && fits(b) && fits(a * x) && fits(a * x * x) && fits(b * x)
        && fits(a * x * x + b * x) && fits(a * x * x + b * x + c))
}

/// The quadratic goes through the three values it is built from: `n0` at 0
/// and `n1` at 1 always, and `n2` at 2 where the second difference
/// `n2 - 2 n1 + n0` is even (else its leading coefficient was halved toward
/// zero).
pub proof fn lemma_quadratic_through(n0: int, n1: int, n2: int)
    ensures
        quadratic(n0, n1, n2, 0).0 == n0,
        quadratic(n0, n1, n2, 1).0 == n1,
        (n2 - 2 * n1 + n0) % 2 == 0 ==> quadratic(n0, n1, n2, 2).0 == n2,
{
    let d2 = (n2 - n1) - (n1 - n0);
    let a = half(d2);
    let b = (n1 - n0) - a;
    assert(a * 0 * 0 + b * 0 + n0 == n0) by (nonlinear_arith);
    assert(a * 1 * 1 + b * 1 + n0 == n1) by (nonlinear_arith)
        requires
            b == (n1 - n0) - a;
    if d2 % 2 == 0 {
        assert(2 * a == d2) by {
            if d2 >= 0 {
                assert(d2 == 2 * (d2 / 2) + d2 % 2);
            } else {
                assert(-d2 == 2 * ((-d2) / 2) + (-d2) % 2);
            }
        }
        assert(a * 2 * 2 + b * 2 + n0 == n2) by (nonlinear_arith)
            requires
                b == (n1 - n0) - a,
                2 * a == (n2 - n1) - (n1 - n0);
    }
}

/// Where some quadratic `A x^2 + B x + C` takes the values `n0`, `n1`, `n2`
/// at 0, 1 and 2, the extrapolation is that quadratic, at every `x`.
pub proof fn lemma_quadratic_unique(n0: int, n1: int, n2: int, qa: int, qb: int, qc: int, x: int)
    requires
        qc == n0,
        qa + qb + qc == n1,
        4 * qa + 2 * qb + qc == n2,
    ensures
        quadratic(n0, n1, n2, x).0 == qa * x * x + qb * x + qc,
{
    let d2 = (n2 - n1) - (n1 - n0);
    assert(d2 == 2 * qa);
    assert(half(d2) == qa) by {
        if qa >= 0 {
            assert((2 * qa) / 2 == qa);
        } else {
            assert((-(2 * qa)) / 2 == -qa);
        }
    }
}

/// The number of steps of the second part.
pub open spec fn far_steps() -> int {
    26501365
}

/// The plots reachable in 26501365 steps on the endless repetition of a
/// square map, extrapolated from the walks of `m`, `m + h` and `m + 2h`
/// steps (`m` being 26501365 modulo the side `h`) as a quadratic in the
/// number of whole map sides walked.
pub open spec fn far_reach(g: Garden) -> (int, bool) {
    let h = garden_rows(g).len() as int;
    let m = far_steps() % h;
    quadratic(reachable(g, m, true), reachable(g, m + h, true), reachable(g, m + 2 * h, true), (far_steps() - m) / h)
}

/// The plots reachable in 26501365 steps on the endless garden (see
/// `far_reach`).
pub fn part2(input: &Garden) -> (res: i64)
    requires
        has_start(*input),
        garden_rows(*input).len() == garden_width(*input),
        walk_fits(*input, far_steps() % (garden_rows(*input).len() as int) + 2 * garden_rows(*input).len()),
        far_reach(*input).1,
    ensures
        res == far_reach(*input).0,
{
    let (h, w) = garden_dim(input);
    let hu = h as u64;
    let mu = 26501365u64 % hu;
    let m = mu as i64;
    proof {
        vstd::arithmetic::div_mod::lemma_mod_decreases(26501365, h as nat);
    }
    let n0 = tiles_within_steps(input, m, true);
    let n1 = tiles_within_steps(input, m + (h as i64), true);
    let n2 = tiles_within_steps(input, m + 2 * (h as i64), true);
    let nu = (26501365u64 - mu) / hu;
    proof {
        let hi = h as int;
        assert(mu as int == far_steps() % hi);
        assert(nu as int == (far_steps() - far_steps() % hi) / hi);
    }
    extrapolate(n0, n1, n2, nu as i64)
}

/// The quadratic through `n0`, `n1`, `n2` at 0, 1 and 2, evaluated at `n`
/// (see `quadratic`).
fn extrapolate(n0: i64, n1: i64, n2: i64, n: i64) -> (res: i64)
    requires
        quadratic(n0 as int, n1 as int, n2 as int, n as int).1,
    ensures
        res == quadratic(n0 as int, n1 as int, n2 as int, n as int).0,
        (n2 - 2 * n1 + n0) % 2 == 0 ==> res == ((n2 - 2 * n1 + n0) / 2) * n * n
            + (n1 - n0 - (n2 - 2 * n1 + n0) / 2) * n + n0,
{
    proof {
        let qa = (n2 - 2 * n1 + n0) / 2;
        if (n2 - 2 * n1 + n0) % 2 == 0 {
            lemma_quadratic_unique(n0 as int, n1 as int, n2 as int, qa, n1 - n0 - qa, n0 as int, n as int);
        }
    }
    let d1_1 = n1 - n0;
    let d1_2 = n2 - n1;
    let d2 = d1_2 - d1_1;
    let c = n0;
    let a = if d2 >= 0 { d2 / 2 } else { -((-d2) / 2) };
    let b = d1_1 - a;
    let an = a * n;
    let ann = an * n;
    let bn = b * n;
    let q = ann + bn;
    q + c
}

} // verus!
