//! Beams of light through a contraption of mirrors and splitters.
use vstd::prelude::*;
use crate::grid::{parse_grid, spec_grid};
use crate::text::{rows_view, ParseError};

verus! {

/// A tile of the contraption.
#[derive(Debug, Clone, Copy, PartialEq, Eq, Structural)]
pub enum Tile {
    /// `.`
    Empty,
    /// `|`
    VSplit,
    /// `-`
    HSplit,
    /// `\`
    LMirror,
    /// `/`
    RMirror,
}

/// The direction in which a beam travels.
#[derive(Debug, Clone, Copy, PartialEq, Eq, Structural)]
pub enum BeamDir {
    Up,
    Right,
    Down,
    Left,
}

/// The bit by which a tile's set of beams records a direction.
pub open spec fn dir_bit(d: BeamDir) -> u8 {
    match d {
        BeamDir::Up => 1u8,
        BeamDir::Right => 2u8,
        BeamDir::Down => 4u8,
        BeamDir::Left => 8u8,
    }
}

fn bit_of(d: BeamDir) -> (res: u8)
    ensures
        res == dir_bit(d),
{
    match d {
        BeamDir::Up => 1u8,
        BeamDir::Right => 2u8,
        BeamDir::Down => 4u8,
        BeamDir::Left => 8u8,
    }
}

/// A tile and the directions of the beams that have crossed it, one bit per
/// direction (see `dir_bit`).
#[derive(Debug, Clone, Copy, PartialEq, Eq, Structural)]
pub struct State {
    pub ty: Tile,
    pub beams: u8,
}

/// A beam at a tile, travelling in a direction.
#[derive(Debug, Clone, Copy, PartialEq, Eq, Structural)]
pub struct Beam {
    pub x: usize,
    pub y: usize,
    pub dir: BeamDir,
}

pub open spec fn tiles_alpha() -> Seq<u8> {
    seq![46u8, 124u8, 45u8, 92u8, 47u8]
}

pub open spec fn tile_of(c: u8) -> Tile {
    if c == 124u8 {
        Tile::VSplit
    } else if c == 45u8 {
        Tile::HSplit
    } else if c == 92u8 {
        Tile::LMirror
    } else if c == 47u8 {
        Tile::RMirror
    } else {
        Tile::Empty
    }
}

fn tile_from(c: u8) -> (res: Tile)
    ensures
        res == tile_of(c),
{
    if c == 124u8 {
        Tile::VSplit
    } else if c == 45u8 {
        Tile::HSplit
    } else if c == 92u8 {
        Tile::LMirror
    } else if c == 47u8 {
        Tile::RMirror
    } else {
        Tile::Empty
    }
}

/// Reads the contraption: rows of `.|-\/`, one per line, and nothing else.
pub fn input_gen(input: &[u8]) -> (res: Result<Vec<Vec<Tile>>, ParseError>)
    ensures
        match res {
            Ok(g) => spec_grid(input@, tiles_alpha(), true) matches Some(rows) && g@.len() == rows.len()
                && forall|y: int| 0 <= y < rows.len() ==> (#[trigger] g@[y])@ == rows[y].map_values(|c: u8| tile_of(c)),
            Err(e) => e == ParseError::Syntax && spec_grid(input@, tiles_alpha(), true) is None,
        },
{
    let alpha: Vec<u8> = vec![46u8, 124u8, 45u8, 92u8, 47u8];
    assert(alpha@ =~= tiles_alpha());
    let rows = parse_grid(input, alpha.as_slice(), true)?;
    let ghost rv = rows_view(rows@);
    let mut out: Vec<Vec<Tile>> = Vec::new();
    let mut y: usize = 0;
    while y < rows.len()
        invariant
            y <= rows@.len(),
            rv == rows_view(rows@),
            out@.len() == y,
            forall|k: int| 0 <= k < y ==> (#[trigger] out@[k])@ == rv[k].map_values(|c: u8| tile_of(c)),
        decreases rows@.len() - y,
    {
        let mut row: Vec<Tile> = Vec::new();
        let mut x: usize = 0;
        while x < rows[y].len()
            invariant
                y < rows@.len(),
                x <= rows@[y as int]@.len(),
                row@ =~= rows@[y as int]@.subrange(0, x as int).map_values(|c: u8| tile_of(c)),
            decreases rows@[y as int]@.len() - x,
        {
            row.push(tile_from(rows[y][x]));
            assert(rows@[y as int]@.subrange(0, x + 1).map_values(|c: u8| tile_of(c)) =~= rows@[y as int]@.subrange(0, x as int).map_values(|c: u8| tile_of(c)).push(tile_of(rows@[y as int]@[x as int])));
            x += 1;
        }
        assert(rows@[y as int]@.subrange(0, x as int) =~= rows@[y as int]@);
        out.push(row);
        y += 1;
    }
    Ok(out)
}

/// Where the beam `b` goes next in a `w` by `h` contraption: one tile on in
/// its direction, or nowhere when it would leave the contraption.
pub open spec fn step(b: Beam, w: int, h: int) -> Option<Beam> {
    match b.dir {
        BeamDir::Right => if b.x + 1 < w { Some(Beam { x: (b.x + 1) as usize, ..b }) } else { None },
        BeamDir::Left => if b.x > 0 { Some(Beam { x: (b.x - 1) as usize, ..b }) } else { None },
        BeamDir::Down => if b.y + 1 < h { Some(Beam { y: (b.y + 1) as usize, ..b }) } else { None },
        BeamDir::Up => if b.y > 0 { Some(Beam { y: (b.y - 1) as usize, ..b }) } else { None },
    }
}

impl Beam {
    /// Moves the beam one tile on in its direction; false, and the beam
    /// unmoved, when it would leave the contraption.
    pub fn advance(&mut self, w: usize, h: usize) -> (res: bool)
        requires
            old(self).dir is Right ==> w >= 1,
            old(self).dir is Down ==> h >= 1,
        ensures
            res == step(*old(self), w as int, h as int) is Some,
            res ==> *final(self) == step(*old(self), w as int, h as int).unwrap(),
            !res ==> *final(self) == *old(self),
    {
        match self.dir {
            BeamDir::Right => {
                if self.x >= w - 1 {
                    return false;
                }
                self.x += 1;
            },
            BeamDir::Left => {
                if self.x == 0 {
                    return false;
                }
                self.x -= 1;
            },
            BeamDir::Down => {
                if self.y >= h - 1 {
                    return false;
                }
                self.y += 1;
            },
            BeamDir::Up => {
                if self.y == 0 {
                    return false;
                }
                self.y -= 1;
            },
        }
        true
    }
}

pub open spec fn opt_seq(o: Option<Beam>) -> Seq<Beam> {
    match o {
        Some(b) => seq![b],
        None => Seq::empty(),
    }
}

pub open spec fn turned(b: Beam, d: BeamDir) -> Beam {
    Beam { dir: d, ..b }
}

/// The direction in which `\` sends a beam.
pub open spec fn lmirror(d: BeamDir) -> BeamDir {
    match d {
        BeamDir::Left => BeamDir::Up,
        BeamDir::Up => BeamDir::Left,
        BeamDir::Right => BeamDir::Down,
        BeamDir::Down => BeamDir::Right,
    }
}

/// The direction in which `/` sends a beam.
pub open spec fn rmirror(d: BeamDir) -> BeamDir {
    match d {
        BeamDir::Left => BeamDir::Down,
        BeamDir::Up => BeamDir::Right,
        BeamDir::Right => BeamDir::Up,
        BeamDir::Down => BeamDir::Left,
    }
}

/// The beams that leave a tile of type `ty` that the beam `b` has entered, in
/// the order in which they are followed up: a splitter met on its flat side
/// splits the beam in two, a mirror turns it, any other tile lets it pass.
pub open spec fn succs(ty: Tile, b: Beam, w: int, h: int) -> Seq<Beam> {
    match ty {
        Tile::VSplit if b.dir is Right || b.dir is Left =>
            opt_seq(step(turned(b, BeamDir::Up), w, h)) + opt_seq(step(turned(b, BeamDir::Down), w, h)),
        Tile::HSplit if b.dir is Up || b.dir is Down =>
            opt_seq(step(turned(b, BeamDir::Right), w, h)) + opt_seq(step(turned(b, BeamDir::Left), w, h)),
        Tile::LMirror => opt_seq(step(turned(b, lmirror(b.dir)), w, h)),
        Tile::RMirror => opt_seq(step(turned(b, rmirror(b.dir)), w, h)),
        _ => opt_seq(step(b, w, h)),
    }
}

fn push_step(v: &mut Vec<Beam>, b: Beam, w: usize, h: usize)
    requires
        b.x < w,
        b.y < h,
    ensures
        final(v)@ == old(v)@ + opt_seq(step(b, w as int, h as int)),
{
    let mut c = b;
    if c.advance(w, h) {
        v.push(c);
    }
    assert(final(v)@ =~= old(v)@ + opt_seq(step(b, w as int, h as int)));
}

/// The beams that leave the tile `ty` that `b` has entered (see `succs`).
fn successors(ty: Tile, b: Beam, w: usize, h: usize) -> (res: Vec<Beam>)
    requires
        b.x < w,
        b.y < h,
    ensures
        res@ == succs(ty, b, w as int, h as int),
{
    let mut out: Vec<Beam> = Vec::new();
    let horizontal = match b.dir {
        BeamDir::Right | BeamDir::Left => true,
        _ => false,
    };
    match ty {
        Tile::VSplit if horizontal => {
            push_step(&mut out, Beam { dir: BeamDir::Up, ..b }, w, h);
            push_step(&mut out, Beam { dir: BeamDir::Down, ..b }, w, h);
        },
        Tile::HSplit if !horizontal => {
            push_step(&mut out, Beam { dir: BeamDir::Right, ..b }, w, h);
            push_step(&mut out, Beam { dir: BeamDir::Left, ..b }, w, h);
        },
        Tile::LMirror => {
            let d = match b.dir {
                BeamDir::Left => BeamDir::Up,
                BeamDir::Up => BeamDir::Left,
                BeamDir::Right => BeamDir::Down,
                BeamDir::Down => BeamDir::Right,
            };
            push_step(&mut out, Beam { dir: d, ..b }, w, h);
        },
        Tile::RMirror => {
            let d = match b.dir {
                BeamDir::Left => BeamDir::Down,
                BeamDir::Up => BeamDir::Right,
                BeamDir::Right => BeamDir::Up,
                BeamDir::Down => BeamDir::Left,
            };
            push_step(&mut out, Beam { dir: d, ..b }, w, h);
        },
        _ => {
            push_step(&mut out, b, w, h);
        },
    }
    assert(out@ =~= succs(ty, b, w as int, h as int));
    out
}


/// The rows of a contraption as plain values.
pub open spec fn gview(m: Seq<Vec<State>>) -> Seq<Seq<State>> {
    m.map_values(|r: Vec<State>| r@)
}

/// Whether a beam like `b` has crossed its tile.
pub open spec fn marked(g: Seq<Seq<State>>, b: Beam) -> bool {
    g[b.y as int][b.x as int].beams & dir_bit(b.dir) != 0
}

/// Whether a beam like `b` has crossed its tile in `g` but not in `g0`.
pub open spec fn newly(g: Seq<Seq<State>>, g0: Seq<Seq<State>>, b: Beam) -> bool {
    marked(g, b) && !marked(g0, b)
}

pub open spec fn in_bounds(b: Beam, w: int, h: int) -> bool {
    b.x < w && b.y < h
}

/// The beams that leave the tile that `b` has entered.
pub open spec fn next_beams(g: Seq<Seq<State>>, w: int, h: int, b: Beam) -> Seq<Beam> {
    succs(g[b.y as int][b.x as int].ty, b, w, h)
}

/// A path of beams, each leaving the tile that the one before entered, none
/// of them already recorded in `g`.
pub open spec fn is_walk(g: Seq<Seq<State>>, w: int, h: int, p: Seq<Beam>) -> bool {
    &&& p.len() >= 1
    &&& forall|i: int| 0 <= i < p.len() ==> !marked(g, #[trigger] p[i])
    &&& forall|i: int| 0 <= i < p.len() - 1 ==> (#[trigger] next_beams(g, w, h, p[i])).contains(p[i + 1])
}

/// Whether the beam `start` leads to the beam `s` along such a path.
pub open spec fn reaches(g: Seq<Seq<State>>, w: int, h: int, start: Beam, s: Beam) -> bool {
    exists|p: Seq<Beam>| is_walk(g, w, h, p) && p[0] == start && p.last() == s
}

pub open spec fn row_sum(f: spec_fn(int, int) -> int, y: int, n: int) -> int
    decreases n,
{
    if n <= 0 {
        0
    } else {
        row_sum(f, y, n - 1) + f(n - 1, y)
    }
}

/// The sum of `f(x, y)` over the first `m` rows of a grid `w` wide.
pub open spec fn grid_sum(f: spec_fn(int, int) -> int, w: int, m: int) -> int
    decreases m,
{
    if m <= 0 {
        0
    } else {
        grid_sum(f, w, m - 1) + row_sum(f, m - 1, w)
    }
}

proof fn lemma_row_sum_update(f1: spec_fn(int, int) -> int, f2: spec_fn(int, int) -> int, y: int, n: int, x0: int)
    requires
        forall|x: int| 0 <= x < n && x != x0 ==> #[trigger] f1(x, y) == f2(x, y),
    ensures
        row_sum(f2, y, n) == row_sum(f1, y, n) + (if 0 <= x0 < n { f2(x0, y) - f1(x0, y) } else { 0 }),
    decreases n,
{
    if n > 0 {
        lemma_row_sum_update(f1, f2, y, n - 1, x0);
    }
}

proof fn lemma_row_sum_same(f1: spec_fn(int, int) -> int, f2: spec_fn(int, int) -> int, y: int, n: int)
    requires
        forall|x: int| 0 <= x < n ==> #[trigger] f1(x, y) == f2(x, y),
    ensures
        row_sum(f2, y, n) == row_sum(f1, y, n),
    decreases n,
{
    if n > 0 {
        lemma_row_sum_same(f1, f2, y, n - 1);
    }
}

/// Changing `f` at one cell changes the sum by as much.
pub proof fn lemma_grid_sum_update(f1: spec_fn(int, int) -> int, f2: spec_fn(int, int) -> int, w: int, m: int, x0: int, y0: int)
    requires
        0 <= x0 < w,
        forall|x: int, y: int| 0 <= x < w && 0 <= y < m && !(x == x0 && y == y0) ==> #[trigger] f1(x, y) == f2(x, y),
    ensures
        grid_sum(f2, w, m) == grid_sum(f1, w, m) + (if 0 <= y0 < m { f2(x0, y0) - f1(x0, y0) } else { 0 }),
    decreases m,
{
    if m > 0 {
        lemma_grid_sum_update(f1, f2, w, m - 1, x0, y0);
        if m - 1 == y0 {
            lemma_row_sum_update(f1, f2, y0, w, x0);
        } else {
            lemma_row_sum_same(f1, f2, m - 1, w);
        }
    }
}

/// Sums of functions that agree on the grid are equal.
pub proof fn lemma_grid_sum_eq(f1: spec_fn(int, int) -> int, f2: spec_fn(int, int) -> int, w: int, m: int)
    requires
        forall|x: int, y: int| 0 <= x < w && 0 <= y < m ==> #[trigger] f1(x, y) == f2(x, y),
    ensures
        grid_sum(f2, w, m) == grid_sum(f1, w, m),
    decreases m,
{
    if m > 0 {
        lemma_grid_sum_eq(f1, f2, w, m - 1);
        lemma_row_sum_same(f1, f2, m - 1, w);
    }
}

proof fn lemma_row_sum_bounds(f: spec_fn(int, int) -> int, y: int, n: int, c: int)
    requires
        n >= 0,
        forall|x: int| 0 <= #[trigger] f(x, y) <= c,
    ensures
        0 <= row_sum(f, y, n) <= c * n,
    decreases n,
{
    if n > 0 {
        lemma_row_sum_bounds(f, y, n - 1, c);
        assert(0 <= f(n - 1, y) <= c);
        assert(c * (n - 1) + c == c * n) by (nonlinear_arith);
        assert(row_sum(f, y, n) == row_sum(f, y, n - 1) + f(n - 1, y));
    } else {
        assert(c * n == 0) by (nonlinear_arith) requires n == 0;
    }
}

/// A sum of terms between 0 and `c` lies between 0 and `c` times the
/// number of cells.
pub proof fn lemma_grid_sum_bounds(f: spec_fn(int, int) -> int, w: int, m: int, c: int)
    requires
        w >= 0,
        m >= 0,
        forall|x: int, y: int| 0 <= #[trigger] f(x, y) <= c,
    ensures
        0 <= grid_sum(f, w, m) <= c * w * m,
    decreases m,
{
    if m > 0 {
        lemma_grid_sum_bounds(f, w, m - 1, c);
        lemma_row_sum_bounds(f, m - 1, w, c);
        assert(c * w * (m - 1) + c * w == c * w * m) by (nonlinear_arith);
    } else {
        assert(c * w * m == 0) by (nonlinear_arith) requires m == 0;
    }
}

pub open spec fn bit_count(m: u8) -> int {
    (if m & 1u8 != 0 { 1int } else { 0int }) + (if m & 2u8 != 0 { 1int } else { 0int }) + (if m
        & 4u8 != 0 { 1int } else { 0int }) + (if m & 8u8 != 0 { 1int } else { 0int })
}

/// The number of beam directions not yet recorded, per tile.
pub open spec fn unset(g: Seq<Seq<State>>) -> spec_fn(int, int) -> int {
    |x: int, y: int| 4 - bit_count(g[y][x].beams)
}

/// The tiles that carry no beam in `g0` and some beam in `g`.
pub open spec fn lit(g0: Seq<Seq<State>>, g: Seq<Seq<State>>) -> spec_fn(int, int) -> int {
    |x: int, y: int| if g0[y][x].beams == 0 && g[y][x].beams != 0 { 1int } else { 0int }
}

/// The tiles that carry no beam in `g0` and that some beam reaches from
/// `start`.
pub open spec fn energized(g0: Seq<Seq<State>>, w: int, h: int, start: Beam) -> spec_fn(int, int) -> int {
    |x: int, y: int|
        if g0[y][x].beams == 0 && exists|d: BeamDir| #[trigger] reaches(g0, w, h, start, Beam { x: x as usize, y: y as usize, dir: d }) {
            1int
        } else {
            0int
        }
}

proof fn lemma_bits(m: u8)
    by (bit_vector)
    ensures
        (m | 1u8) & 1u8 != 0, (m | 1u8) & 2u8 == m & 2u8, (m | 1u8) & 4u8 == m & 4u8, (m | 1u8) & 8u8 == m & 8u8,
        (m | 2u8) & 2u8 != 0, (m | 2u8) & 1u8 == m & 1u8, (m | 2u8) & 4u8 == m & 4u8, (m | 2u8) & 8u8 == m & 8u8,
        (m | 4u8) & 4u8 != 0, (m | 4u8) & 1u8 == m & 1u8, (m | 4u8) & 2u8 == m & 2u8, (m | 4u8) & 8u8 == m & 8u8,
        (m | 8u8) & 8u8 != 0, (m | 8u8) & 1u8 == m & 1u8, (m | 8u8) & 2u8 == m & 2u8, (m | 8u8) & 4u8 == m & 4u8,
        m < 16 ==> (m == 0 <==> (m & 1u8 == 0 && m & 2u8 == 0 && m & 4u8 == 0 && m & 8u8 == 0)),
        m < 16 ==> (m | 1u8) < 16 && (m | 2u8) < 16 && (m | 4u8) < 16 && (m | 8u8) < 16,
        (m | 1u8) != 0 && (m | 2u8) != 0 && (m | 4u8) != 0 && (m | 8u8) != 0,
{
}

/// What recording the beam `b` in its tile changes.
proof fn lemma_mark(m: u8, d: BeamDir)
    requires
        m & dir_bit(d) == 0,
        m < 16,
    ensures
        (m | dir_bit(d)) & dir_bit(d) != 0,
        forall|e: BeamDir| e != d ==> (m | dir_bit(d)) & dir_bit(e) == m & dir_bit(e),
        bit_count(m | dir_bit(d)) == bit_count(m) + 1,
        (m | dir_bit(d)) < 16,
        (m | dir_bit(d)) != 0,
{
    lemma_bits(m);
}

proof fn lemma_empty_mask(m: u8)
    requires
        m < 16,
    ensures
        m == 0 <==> forall|d: BeamDir| #[trigger] (m & dir_bit(d)) == 0,
{
    lemma_bits(m);
    if m != 0 {
        if m & 1u8 != 0 {
            assert(m & dir_bit(BeamDir::Up) != 0);
        } else if m & 2u8 != 0 {
            assert(m & dir_bit(BeamDir::Right) != 0);
        } else if m & 4u8 != 0 {
            assert(m & dir_bit(BeamDir::Down) != 0);
        } else {
            assert(m & dir_bit(BeamDir::Left) != 0);
        }
    }
}

proof fn lemma_succs_in_bounds(ty: Tile, b: Beam, w: int, h: int)
    requires
        in_bounds(b, w, h),
    ensures
        forall|i: int| 0 <= i < succs(ty, b, w, h).len() ==> in_bounds(#[trigger] succs(ty, b, w, h)[i], w, h),
        succs(ty, b, w, h).len() <= 2,
{
}

/// A path to `r` followed by a beam that leaves the tile `r` entered is a
/// path too.
proof fn lemma_extend_walk(g: Seq<Seq<State>>, w: int, h: int, start: Beam, r: Beam, s: Beam)
    requires
        reaches(g, w, h, start, r),
        next_beams(g, w, h, r).contains(s),
        !marked(g, s),
    ensures
        reaches(g, w, h, start, s),
{
    let p = choose|p: Seq<Beam>| is_walk(g, w, h, p) && p[0] == start && p.last() == r;
    let q = p.push(s);
    assert(is_walk(g, w, h, q)) by {
        assert forall|i: int| 0 <= i < q.len() - 1 implies (#[trigger] next_beams(g, w, h, q[i])).contains(q[i + 1]) by {
            if i < p.len() - 1 {
                assert(q[i] == p[i] && q[i + 1] == p[i + 1]);
            }
        }
        assert forall|i: int| 0 <= i < q.len() implies !marked(g, #[trigger] q[i]) by {
            if i < p.len() {
                assert(q[i] == p[i]);
            }
        }
    }
    assert(q[0] == start && q.last() == s);
}

/// Once every beam that leaves a newly crossed tile is recorded, every path
/// from `start` has been recorded.
proof fn lemma_walk_recorded(g0: Seq<Seq<State>>, g: Seq<Seq<State>>, w: int, h: int, start: Beam, p: Seq<Beam>, n: int)
    requires
        is_walk(g0, w, h, p),
        p[0] == start,
        in_bounds(start, w, h),
        marked(g, start),
        forall|r: Beam| in_bounds(r, w, h) && #[trigger] newly(g, g0, r) ==> forall|s: Beam|
            #[trigger] next_beams(g0, w, h, r).contains(s) ==> marked(g, s),
        1 <= n <= p.len(),
    ensures
        forall|i: int| 0 <= i < n ==> in_bounds(#[trigger] p[i], w, h) && newly(g, g0, p[i]),
    decreases n,
{
    if n > 1 {
        lemma_walk_recorded(g0, g, w, h, start, p, n - 1);
        let r = p[n - 2];
        assert(in_bounds(r, w, h) && newly(g, g0, r));
        assert(next_beams(g0, w, h, r).contains(p[n - 1]));
        lemma_succs_in_bounds(g0[r.y as int][r.x as int].ty, r, w, h);
        let k = choose|k: int| 0 <= k < next_beams(g0, w, h, r).len() && next_beams(g0, w, h, r)[k] == p[n - 1];
        assert(in_bounds(next_beams(g0, w, h, r)[k], w, h));
        assert(!marked(g0, p[n - 1]));
    }
}


/// The contraption is a rectangle of `w` by `h` tiles whose beam sets use
/// only the four direction bits.
pub open spec fn grid_wf(g: Seq<Seq<State>>, w: int, h: int) -> bool {
    &&& g.len() == h
    &&& forall|y: int| 0 <= y < h ==> (#[trigger] g[y]).len() == w
    &&& forall|x: int, y: int| 0 <= x < w && 0 <= y < h ==> (#[trigger] g[y][x]).beams < 16
}

/// Follows the beam `b` through the contraption, recording each beam in the
/// tile it crosses, and counts the tiles that it lights: those that carried
/// no beam before and carry one after. A beam already recorded in its tile is
/// not followed again.
pub fn energize(map: Vec<Vec<State>>, b: Beam) -> (res: i64)
    requires
        map@.len() >= 1,
        grid_wf(gview(map@), map@[0]@.len() as int, map@.len() as int),
        b.x < map@[0]@.len(),
        b.y < map@.len(),
        map@.len() * map@[0]@.len() <= i64::MAX,
    ensures
        res == grid_sum(
            energized(gview(map@), map@[0]@.len() as int, map@.len() as int, b),
            map@[0]@.len() as int,
            map@.len() as int,
        ),
{
    let mut map = map;
    let w = map[0].len();
    let h = map.len();
    let ghost g0 = gview(map@);
    let ghost wi = w as int;
    let ghost hi = h as int;
    assert(map@[0]@.len() == g0[0].len());
    let mut stack: Vec<Beam> = vec![b];
    let mut n_energized: i64 = 0;
    proof {
        assert(lit(g0, g0) =~= (|x: int, y: int| 0int));
        lemma_grid_sum_bounds(lit(g0, g0), wi, hi, 0);
        assert(0 * wi * hi == 0);
        lemma_grid_sum_bounds(unset(g0), wi, hi, 4);
        assert(hi * wi <= i64::MAX);
    }
    while stack.len() > 0
        invariant
            w == map@[0]@.len(),
            wi == w,
            hi == h,
            h == map@.len(),
            grid_wf(g0, wi, hi),
            grid_wf(gview(map@), wi, hi),
            hi * wi <= i64::MAX,
            in_bounds(b, wi, hi),
            forall|x: int, y: int| 0 <= x < wi && 0 <= y < hi ==> (#[trigger] gview(map@)[y][x]).ty == g0[y][x].ty,
            forall|r: Beam| in_bounds(r, wi, hi) && #[trigger] marked(g0, r) ==> marked(gview(map@), r),
            forall|r: Beam| in_bounds(r, wi, hi) && #[trigger] newly(gview(map@), g0, r) ==> reaches(g0, wi, hi, b, r),
            forall|r: Beam| in_bounds(r, wi, hi) && #[trigger] newly(gview(map@), g0, r) ==> forall|s: Beam|
                #[trigger] next_beams(g0, wi, hi, r).contains(s) ==> marked(gview(map@), s) || stack@.contains(s),
            forall|i: int| 0 <= i < stack@.len() ==> in_bounds(#[trigger] stack@[i], wi, hi) && (stack@[i] == b || exists|r: Beam|
                in_bounds(r, wi, hi) && #[trigger] newly(gview(map@), g0, r) && next_beams(g0, wi, hi, r).contains(stack@[i])),
            marked(gview(map@), b) || stack@.contains(b),
            n_energized == grid_sum(lit(g0, gview(map@)), wi, hi),
            0 <= grid_sum(unset(gview(map@)), wi, hi),
        decreases 3 * grid_sum(unset(gview(map@)), wi, hi) + stack@.len(),
    {
        let ghost g = gview(map@);
        let ghost old_stack = stack@;
        let cur = stack.pop().unwrap();
        assert(old_stack == stack@.push(cur));
        assert(old_stack[old_stack.len() - 1] == cur);
        let cell = map[cur.y][cur.x];
        assert(cell == g[cur.y as int][cur.x as int]);
        let bit = bit_of(cur.dir);
        if cell.beams & bit != 0 {
            proof {
                assert forall|r: Beam| in_bounds(r, wi, hi) && #[trigger] newly(g, g0, r) implies forall|s: Beam|
                    #[trigger] next_beams(g0, wi, hi, r).contains(s) ==> marked(g, s) || stack@.contains(s) by {
                    assert forall|s: Beam| #[trigger] next_beams(g0, wi, hi, r).contains(s) implies marked(g, s) || stack@.contains(s) by {
                        if !marked(g, s) {
                            assert(old_stack.contains(s));
                            let k = choose|k: int| 0 <= k < old_stack.len() && old_stack[k] == s;
                            if k < stack@.len() {
                                assert(stack@[k] == s);
                            }
                        }
                    }
                }
                if !marked(g, b) {
                    let k = choose|k: int| 0 <= k < old_stack.len() && old_stack[k] == b;
                    if k < stack@.len() {
                        assert(stack@[k] == b);
                    }
                }
                assert forall|i: int| 0 <= i < stack@.len() implies in_bounds(#[trigger] stack@[i], wi, hi) && (stack@[i] == b || exists|r: Beam|
                    in_bounds(r, wi, hi) && #[trigger] newly(g, g0, r) && next_beams(g0, wi, hi, r).contains(stack@[i])) by {
                    assert(stack@[i] == old_stack[i]);
                }
            }
            continue;
        }
        assert(in_bounds(cur, wi, hi)) by {
            assert(in_bounds(old_stack[old_stack.len() - 1], wi, hi));
        }
        // the beam is new in its tile
        proof {
            lemma_mark(cell.beams, cur.dir);
            lemma_empty_mask(cell.beams);
            lemma_empty_mask(g0[cur.y as int][cur.x as int].beams);
        }
        let ghost was_empty = cell.beams == 0;
        if cell.beams == 0 {
            proof {
                lemma_grid_sum_bounds(lit(g0, g), wi, hi, 1);
                assert(lit(g0, g)(cur.x as int, cur.y as int) == 0);
                assert forall|d: BeamDir| #[trigger] (g0[cur.y as int][cur.x as int].beams & dir_bit(d)) == 0 by {
                    let r = Beam { dir: d, ..cur };
                    if marked(g0, r) {
                        assert(marked(g, r));
                    }
                }
                lemma_grid_sum_update(lit(g0, g), lit(g0, g.update(cur.y as int, g[cur.y as int].update(cur.x as int, State { ty: cell.ty, beams: cell.beams | bit }))), wi, hi, cur.x as int, cur.y as int);
                assert(grid_sum(lit(g0, g), wi, hi) < wi * hi) by {
                    lemma_grid_sum_bounds(lit(g0, g.update(cur.y as int, g[cur.y as int].update(cur.x as int, State { ty: cell.ty, beams: cell.beams | bit }))), wi, hi, 1);
                    assert(1 * wi * hi == hi * wi) by (nonlinear_arith);
                }
            }
            n_energized += 1;
        }
        map[cur.y][cur.x].beams = cell.beams | bit;
        let ghost g2 = gview(map@);
        proof {
            assert(g2 =~= g.update(cur.y as int, g[cur.y as int].update(cur.x as int, State { ty: cell.ty, beams: cell.beams | bit })));
            assert forall|r: Beam| in_bounds(r, wi, hi) implies #[trigger] marked(g2, r) == (marked(g, r) || r == cur) by {
                if r.x == cur.x && r.y == cur.y {
                    if r.dir != cur.dir {
                        assert((cell.beams | bit) & dir_bit(r.dir) == cell.beams & dir_bit(r.dir));
                    }
                }
            }
            if !was_empty {
                lemma_grid_sum_update(lit(g0, g), lit(g0, g2), wi, hi, cur.x as int, cur.y as int);
            }
            lemma_grid_sum_update(unset(g), unset(g2), wi, hi, cur.x as int, cur.y as int);
            lemma_grid_sum_bounds(unset(g2), wi, hi, 4);
        }
        let mut next = successors(cell.ty, cur, w, h);
        let ghost nv = next@;
        proof { lemma_succs_in_bounds(cell.ty, cur, wi, hi); }
        let ghost popped = stack@;
        stack.append(&mut next);
        proof {
            assert(stack@ == popped + nv);
            assert(nv == next_beams(g0, wi, hi, cur));
            // the new beam is reached from the start
            if cur == b {
                let p = seq![b];
                assert(is_walk(g0, wi, hi, p));
                assert(p[0] == b && p.last() == b);
            } else {
                let i0 = old_stack.len() - 1;
                let r0 = choose|r: Beam| in_bounds(r, wi, hi) && #[trigger] newly(g, g0, r) && next_beams(g0, wi, hi, r).contains(old_stack[i0]);
                lemma_extend_walk(g0, wi, hi, b, r0, cur);
            }
            assert forall|r: Beam| in_bounds(r, wi, hi) && #[trigger] newly(g2, g0, r) implies reaches(g0, wi, hi, b, r) by {
                if r != cur {
                    assert(newly(g, g0, r));
                }
            }
            assert forall|r: Beam| in_bounds(r, wi, hi) && #[trigger] newly(g2, g0, r) implies forall|s: Beam|
                #[trigger] next_beams(g0, wi, hi, r).contains(s) ==> marked(g2, s) || stack@.contains(s) by {
                assert forall|s: Beam| #[trigger] next_beams(g0, wi, hi, r).contains(s) implies marked(g2, s) || stack@.contains(s) by {
                    if r == cur {
                        let k = choose|k: int| 0 <= k < nv.len() && nv[k] == s;
                        assert(stack@[popped.len() + k] == s);
                    } else {
                        assert(newly(g, g0, r));
                        lemma_succs_in_bounds(g0[r.y as int][r.x as int].ty, r, wi, hi);
                        let k0 = choose|k: int| 0 <= k < next_beams(g0, wi, hi, r).len() && next_beams(g0, wi, hi, r)[k] == s;
                        assert(in_bounds(next_beams(g0, wi, hi, r)[k0], wi, hi));
                        if !marked(g2, s) {
                            assert(!marked(g, s));
                            assert(old_stack.contains(s));
                            let k = choose|k: int| 0 <= k < old_stack.len() && old_stack[k] == s;
                            if k < popped.len() {
                                assert(stack@[k] == s);
                            } else {
                                assert(s == cur);
                            }
                        }
                    }
                }
            }
            assert forall|i: int| 0 <= i < stack@.len() implies in_bounds(#[trigger] stack@[i], wi, hi) && (stack@[i] == b || exists|r: Beam|
                in_bounds(r, wi, hi) && #[trigger] newly(g2, g0, r) && next_beams(g0, wi, hi, r).contains(stack@[i])) by {
                if i < popped.len() {
                    assert(stack@[i] == old_stack[i]);
                    if stack@[i] != b {
                        let r = choose|r: Beam| in_bounds(r, wi, hi) && #[trigger] newly(g, g0, r) && next_beams(g0, wi, hi, r).contains(old_stack[i]);
                        assert(newly(g2, g0, r));
                    }
                } else {
                    assert(stack@[i] == nv[i - popped.len()]);
                    assert(newly(g2, g0, cur));
                    assert(nv.contains(stack@[i]));
                }
            }
            if !marked(g2, b) {
                assert(old_stack.contains(b));
                let k = choose|k: int| 0 <= k < old_stack.len() && old_stack[k] == b;
                if k < popped.len() {
                    assert(stack@[k] == b);
                }
            }
        }
    }
    let ghost g = gview(map@);
    proof {
        assert forall|x: int, y: int| 0 <= x < wi && 0 <= y < hi implies #[trigger] lit(g0, g)(x, y) == energized(g0, wi, hi, b)(x, y) by {
            {
                lemma_empty_mask(g0[y][x].beams);
                lemma_empty_mask(g[y][x].beams);
                if g0[y][x].beams == 0 {
                    if g[y][x].beams != 0 {
                        let d = choose|d: BeamDir| #[trigger] (g[y][x].beams & dir_bit(d)) != 0;
                        let r = Beam { x: x as usize, y: y as usize, dir: d };
                        assert(newly(g, g0, r));
                        assert(reaches(g0, wi, hi, b, r));
                    } else {
                        assert forall|d: BeamDir| !#[trigger] reaches(g0, wi, hi, b, Beam { x: x as usize, y: y as usize, dir: d }) by {
                            let r = Beam { x: x as usize, y: y as usize, dir: d };
                            if reaches(g0, wi, hi, b, r) {
                                let p = choose|p: Seq<Beam>| is_walk(g0, wi, hi, p) && p[0] == b && p.last() == r;
                                lemma_walk_recorded(g0, g, wi, hi, b, p, p.len() as int);
                                assert(newly(g, g0, p[p.len() - 1]));
                                assert(g[y][x].beams & dir_bit(d) != 0);
                            }
                        }
                    }
                }
            }
        }
        lemma_grid_sum_eq(lit(g0, g), energized(g0, wi, hi, b), wi, hi);
    }
    n_energized
}


/// The contraption `input` with no beam recorded anywhere.
pub open spec fn fresh(input: Seq<Vec<Tile>>) -> Seq<Seq<State>> {
    input.map_values(|r: Vec<Tile>| r@.map_values(|t: Tile| State { ty: t, beams: 0 }))
}

/// `input` is a nonempty rectangle of tiles, `w` wide, whose tile count
/// fits in an `i64`.
pub open spec fn rect(input: Seq<Vec<Tile>>, w: int) -> bool {
    &&& input.len() >= 1
    &&& w >= 1
    &&& forall|y: int| 0 <= y < input.len() ==> (#[trigger] input[y])@.len() == w
    &&& input.len() * w <= i64::MAX
}

/// The number of tiles that the beam `b` lights in the contraption `input`.
pub open spec fn lights(input: Seq<Vec<Tile>>, b: Beam) -> int {
    let w = input[0]@.len() as int;
    let h = input.len() as int;
    grid_sum(energized(fresh(input), w, h, b), w, h)
}

fn fresh_map(input: &[Vec<Tile>]) -> (res: Vec<Vec<State>>)
    ensures
        gview(res@) == fresh(input@),
        res@.len() == input@.len(),
        forall|y: int| 0 <= y < input@.len() ==> (#[trigger] res@[y])@.len() == input@[y]@.len(),
{
    let mut out: Vec<Vec<State>> = Vec::new();
    let mut y: usize = 0;
    while y < input.len()
        invariant
            y <= input@.len(),
            gview(out@) =~= fresh(input@).take(y as int),
        decreases input@.len() - y,
    {
        let mut row: Vec<State> = Vec::new();
        let mut x: usize = 0;
        while x < input[y].len()
            invariant
                y < input@.len(),
                x <= input@[y as int]@.len(),
                row@ =~= input@[y as int]@.take(x as int).map_values(|t: Tile| State { ty: t, beams: 0 }),
            decreases input@[y as int]@.len() - x,
        {
            row.push(State { ty: input[y][x], beams: 0 });
            x += 1;
        }
        assert(input@[y as int]@.take(x as int) =~= input@[y as int]@);
        let ghost before = gview(out@);
        let ghost rv = row@;
        out.push(row);
        assert(gview(out@) =~= before.push(rv));
        assert(fresh(input@)[y as int] == rv);
        assert(fresh(input@).take(y + 1) =~= fresh(input@).take(y as int).push(fresh(input@)[y as int]));
        y += 1;
    }
    assert(fresh(input@).take(y as int) =~= fresh(input@));
    assert forall|k: int| 0 <= k < input@.len() implies (#[trigger] out@[k])@.len() == input@[k]@.len() by {
        assert(gview(out@)[k] == out@[k]@);
        assert(fresh(input@)[k].len() == input@[k]@.len());
    }
    out
}

/// Follows a beam into the contraption `input` through `b`.
fn lights_from(input: &[Vec<Tile>], b: Beam) -> (res: i64)
    requires
        rect(input@, input@[0]@.len() as int),
        b.x < input@[0]@.len(),
        b.y < input@.len(),
    ensures
        res == lights(input@, b),
{
    let map = fresh_map(input);
    let ghost g = gview(map@);
    proof {
        assert(g[0].len() == input@[0]@.len());
        assert forall|x: int, y: int| 0 <= x < input@[0]@.len() && 0 <= y < input@.len() implies (#[trigger] g[y][x]).beams < 16 by {
            assert(g[y] == fresh(input@)[y]);
        }
    }
    energize(map, b)
}

/// The number of tiles lit by a beam that enters at the top left, heading
/// right.
pub fn part1(input: &[Vec<Tile>]) -> (res: i64)
    requires
        rect(input@, input@[0]@.len() as int),
    ensures
        res == lights(input@, Beam { x: 0, y: 0, dir: BeamDir::Right }),
{
    lights_from(input, Beam { x: 0, y: 0, dir: BeamDir::Right })
}

pub open spec fn imax(a: int, b: int) -> int {
    if a < b { b } else { a }
}

/// The most tiles lit by a beam entering along the first `n` rows, from the
/// left or the right edge.
pub open spec fn best_rows(input: Seq<Vec<Tile>>, n: int) -> int
    decreases n,
{
    if n <= 0 {
        0
    } else {
        let w = input[0]@.len();
        imax(
            imax(best_rows(input, n - 1), lights(input, Beam { x: 0, y: (n - 1) as usize, dir: BeamDir::Right })),
            lights(input, Beam { x: (w - 1) as usize, y: (n - 1) as usize, dir: BeamDir::Left }),
        )
    }
}

/// The most tiles lit by a beam entering along any row, or along the first
/// `n` columns from the top or the bottom edge.
pub open spec fn best_edges(input: Seq<Vec<Tile>>, n: int) -> int
    decreases n,
{
    if n <= 0 {
        best_rows(input, input.len() as int)
    } else {
        let h = input.len();
        imax(
            imax(best_edges(input, n - 1), lights(input, Beam { x: (n - 1) as usize, y: 0, dir: BeamDir::Down })),
            lights(input, Beam { x: (n - 1) as usize, y: (h - 1) as usize, dir: BeamDir::Up }),
        )
    }
}

/// A beam entering the contraption (`h` rows of `w` tiles) from an edge
/// tile, heading inward: from the left or right edge along a row, or from
/// the top or bottom edge along a column.
pub open spec fn edge_entry(h: int, w: int, b: Beam) -> bool {
    ||| b.x == 0 && b.y < h && b.dir == BeamDir::Right
    ||| b.x == w - 1 && b.y < h && b.dir == BeamDir::Left
    ||| b.y == 0 && b.x < w && b.dir == BeamDir::Down
    ||| b.y == h - 1 && b.x < w && b.dir == BeamDir::Up
}

proof fn lemma_row_sum_nonneg(f: spec_fn(int, int) -> int, y: int, n: int)
    requires
        forall|x: int, y: int| #[trigger] f(x, y) >= 0,
    ensures
        row_sum(f, y, n) >= 0,
    decreases n,
{
    if n > 0 {
        lemma_row_sum_nonneg(f, y, n - 1);
    }
}

proof fn lemma_grid_sum_nonneg(f: spec_fn(int, int) -> int, w: int, m: int)
    requires
        forall|x: int, y: int| #[trigger] f(x, y) >= 0,
    ensures
        grid_sum(f, w, m) >= 0,
    decreases m,
{
    if m > 0 {
        lemma_grid_sum_nonneg(f, w, m - 1);
        lemma_row_sum_nonneg(f, m - 1, w);
    }
}

/// No beam lights fewer than no tiles.
pub proof fn lemma_lights_nonneg(input: Seq<Vec<Tile>>, b: Beam)
    ensures
        lights(input, b) >= 0,
{
    let w = input[0]@.len() as int;
    let h = input.len() as int;
    let f = energized(fresh(input), w, h, b);
    assert forall|x: int, y: int| #[trigger] f(x, y) >= 0 by {}
    lemma_grid_sum_nonneg(f, w, h);
}

proof fn lemma_rect_dims(input: Seq<Vec<Tile>>)
    requires
        rect(input, input[0]@.len() as int),
    ensures
        input.len() <= i64::MAX,
        input[0]@.len() <= i64::MAX,
{
    let w = input[0]@.len() as int;
    let h = input.len() as int;
    assert(h <= h * w && w <= h * w) by (nonlinear_arith)
        requires
            h >= 1,
            w >= 1,
    ;
}

proof fn lemma_best_rows(input: Seq<Vec<Tile>>, n: int)
    requires
        rect(input, input[0]@.len() as int),
        input.len() <= usize::MAX,
        input[0]@.len() <= usize::MAX,
        0 <= n <= input.len(),
    ensures
        forall|b: Beam| #![trigger lights(input, b)] edge_entry(n, input[0]@.len() as int, b) && (b.dir == BeamDir::Right || b.dir == BeamDir::Left)
            ==> lights(input, b) <= best_rows(input, n),
        n == 0 ==> best_rows(input, n) == 0,
        n > 0 ==> exists|b: Beam| #![trigger lights(input, b)] edge_entry(input.len() as int, input[0]@.len() as int, b)
            && lights(input, b) == best_rows(input, n),
    decreases n,
{
    let w = input[0]@.len() as int;
    let h = input.len() as int;
    lemma_rect_dims(input);
    if n > 0 {
        lemma_best_rows(input, n - 1);
        let bl = Beam { x: 0, y: (n - 1) as usize, dir: BeamDir::Right };
        let br = Beam { x: (w - 1) as usize, y: (n - 1) as usize, dir: BeamDir::Left };
        lemma_lights_nonneg(input, bl);
        lemma_lights_nonneg(input, br);
        assert(edge_entry(h, w, bl) && edge_entry(h, w, br));
        assert forall|b: Beam| #![trigger lights(input, b)] edge_entry(n, w, b) && (b.dir == BeamDir::Right || b.dir == BeamDir::Left)
            implies lights(input, b) <= best_rows(input, n) by {
            if b.y < n - 1 {
                assert(edge_entry(n - 1, w, b));
            } else if b.dir == BeamDir::Right {
                assert(b == bl);
            } else {
                assert(b == br);
            }
        }
        let v = best_rows(input, n);
        if v == lights(input, bl) {
        } else if v == lights(input, br) {
        } else {
            assert(n - 1 > 0);
        }
    }
}

/// The second part's answer is the most tiles that any beam entering from
/// an edge lights: no such beam lights more, and one lights exactly as many.
pub proof fn lemma_best_edges(input: Seq<Vec<Tile>>)
    requires
        rect(input, input[0]@.len() as int),
        input.len() <= usize::MAX,
        input[0]@.len() <= usize::MAX,
    ensures
        forall|b: Beam| #![trigger lights(input, b)] edge_entry(input.len() as int, input[0]@.len() as int, b)
            ==> lights(input, b) <= best_edges(input, input[0]@.len() as int),
        exists|b: Beam| #![trigger lights(input, b)] edge_entry(input.len() as int, input[0]@.len() as int, b)
            && lights(input, b) == best_edges(input, input[0]@.len() as int),
{
    lemma_best_cols(input, input[0]@.len() as int);
}

proof fn lemma_best_cols(input: Seq<Vec<Tile>>, n: int)
    requires
        rect(input, input[0]@.len() as int),
        input.len() <= usize::MAX,
        input[0]@.len() <= usize::MAX,
        0 <= n <= input[0]@.len(),
    ensures
        forall|b: Beam| #![trigger lights(input, b)] edge_entry(input.len() as int, input[0]@.len() as int, b)
            && (b.dir == BeamDir::Right || b.dir == BeamDir::Left || b.x < n)
            ==> lights(input, b) <= best_edges(input, n),
        exists|b: Beam| #![trigger lights(input, b)] edge_entry(input.len() as int, input[0]@.len() as int, b)
            && lights(input, b) == best_edges(input, n),
    decreases n,
{
    let w = input[0]@.len() as int;
    let h = input.len() as int;
    lemma_rect_dims(input);
    if n == 0 {
        lemma_best_rows(input, h);
    } else {
        lemma_best_cols(input, n - 1);
        let bd = Beam { x: (n - 1) as usize, y: 0, dir: BeamDir::Down };
        let bu = Beam { x: (n - 1) as usize, y: (h - 1) as usize, dir: BeamDir::Up };
        assert(edge_entry(h, w, bd) && edge_entry(h, w, bu));
        assert forall|b: Beam| #![trigger lights(input, b)] edge_entry(h, w, b)
            && (b.dir == BeamDir::Right || b.dir == BeamDir::Left || b.x < n)
            implies lights(input, b) <= best_edges(input, n) by {
            if b.dir == BeamDir::Right || b.dir == BeamDir::Left || b.x < n - 1 {
            } else if b.dir == BeamDir::Down {
                assert(b == bd);
            } else {
                assert(b == bu);
            }
        }
        let v = best_edges(input, n);
        if v == lights(input, bd) {
        } else if v == lights(input, bu) {
        } else {
        }
    }
}

/// The most tiles lit by a beam entering from any edge tile, heading inward.
pub fn part2(input: &[Vec<Tile>]) -> (res: i64)
    requires
        rect(input@, input@[0]@.len() as int),
    ensures
        res == best_edges(input@, input@[0]@.len() as int),
        forall|b: Beam| #![trigger lights(input@, b)] edge_entry(input@.len() as int, input@[0]@.len() as int, b)
            ==> lights(input@, b) <= res,
        exists|b: Beam| #![trigger lights(input@, b)] edge_entry(input@.len() as int, input@[0]@.len() as int, b)
            && lights(input@, b) == res,
{
    let w = input[0].len();
    let h = input.len();
    let mut max: i64 = 0;
    let mut y: usize = 0;
    while y < h
        invariant
            w == input@[0]@.len(),
            h == input@.len(),
            y <= h,
            rect(input@, w as int),
            max == best_rows(input@, y as int),
        decreases h - y,
    {
        let a = lights_from(input, Beam { x: 0, y, dir: BeamDir::Right });
        if a > max {
            max = a;
        }
        let c = lights_from(input, Beam { x: w - 1, y, dir: BeamDir::Left });
        if c > max {
            max = c;
        }
        y += 1;
    }
    let mut x: usize = 0;
    while x < w
        invariant
            w == input@[0]@.len(),
            h == input@.len(),
            x <= w,
            rect(input@, w as int),
            max == best_edges(input@, x as int),
        decreases w - x,
    {
        let a = lights_from(input, Beam { x, y: 0, dir: BeamDir::Down });
        if a > max {
            max = a;
        }
        let c = lights_from(input, Beam { x, y: h - 1, dir: BeamDir::Up });
        if c > max {
            max = c;
        }
        x += 1;
    }
    proof {
        lemma_best_edges(input@);
    }
    max
}

} // verus!
