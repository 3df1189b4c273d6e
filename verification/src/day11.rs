//! Cosmic expansion: distances between galaxies once empty rows and
//! columns have grown.
use vstd::prelude::*;
use crate::grid::{parse_grid, spec_grid};
use crate::text::{rows_view, ParseError};

verus! {

#[derive(Debug, Clone, Copy, PartialEq, Eq, Structural)]
pub enum Tile {
    Empty,
    Galaxy,
}

/// The image of the sky, row by row.
#[derive(Debug, Clone)]
pub struct Image {
    pub data: Vec<Vec<Tile>>,
}

/// A galaxy's place once the image has expanded.
#[derive(Debug, Clone, Copy, PartialEq, Eq, Structural)]
pub struct Pos {
    pub x: i64,
    pub y: i64,
}

pub open spec fn tile_of(c: u8) -> Tile {
    if c == 35u8 { Tile::Galaxy } else { Tile::Empty }
}

/// Reads the image: rows of `#` and `.`, one per line; reading stops before
/// the first line that is no such row.
pub fn input_gen(input: &[u8]) -> (res: Result<Image, ParseError>)
    ensures
        match res {
            Ok(m) => spec_grid(input@, seq![35u8, 46u8], false) matches Some(rows) && m.data@.len() == rows.len()
                && forall|y: int| 0 <= y < rows.len() ==> (#[trigger] m.data@[y])@ == rows[y].map_values(|c: u8| tile_of(c)),
            Err(e) => e == ParseError::Syntax && spec_grid(input@, seq![35u8, 46u8], false) is None,
        },
{
    let alpha: Vec<u8> = vec![35u8, 46u8];
    assert(alpha@ =~= seq![35u8, 46u8]);
    let rows = parse_grid(input, alpha.as_slice(), false)?;
    let ghost rv = rows_view(rows@);
    let mut out: Vec<Vec<Tile>> = Vec::new();
    let mut y: usize = 0;
    while y < rows.len()
        invariant
            y <= rows@.len(),
            rv == rows_view(rows@),
            out@.len() == y,
            forall|k: int| 0 <= k < y ==> (#[trigger] out@[k])@ == rv[k].map_values(|c: u8| tile_of(c)),
        decreases rows@.len() - y,
    {
        let mut row: Vec<Tile> = Vec::new();
        let mut x: usize = 0;
        while x < rows[y].len()
            invariant
                y < rows@.len(),
                x <= rows@[y as int]@.len(),
                row@ =~= rows@[y as int]@.subrange(0, x as int).map_values(|c: u8| tile_of(c)),
            decreases rows@[y as int]@.len() - x,
        {
            let t = if rows[y][x] == 35u8 { Tile::Galaxy } else { Tile::Empty };
            row.push(t);
            assert(rows@[y as int]@.subrange(0, x + 1).map_values(|c: u8| tile_of(c)) =~= rows@[y as int]@.subrange(0, x as int).map_values(|c: u8| tile_of(c)).push(tile_of(rows@[y as int]@[x as int])));
            x += 1;
        }
        assert(rows@[y as int]@.subrange(0, x as int) =~= rows@[y as int]@);
        out.push(row);
        y += 1;
    }
    Ok(Image { data: out })
}

pub open spec fn grid(m: Image) -> Seq<Seq<Tile>> {
    m.data@.map_values(|r: Vec<Tile>| r@)
}

/// The image is a rectangle with at least one row.
pub open spec fn rect(g: Seq<Seq<Tile>>) -> bool {
    g.len() >= 1 && forall|y: int| 0 <= y < g.len() ==> (#[trigger] g[y]).len() == g[0].len()
}

pub open spec fn row_empty(g: Seq<Seq<Tile>>, y: int) -> bool {
    forall|x: int| 0 <= x < g[y].len() ==> g[y][x] == Tile::Empty
}

pub open spec fn col_empty(g: Seq<Seq<Tile>>, x: int) -> bool {
    forall|y: int| 0 <= y < g.len() ==> g[y][x] == Tile::Empty
}

/// How tall each row becomes: `factor` for an empty row, else 1.
pub open spec fn row_sizes(g: Seq<Seq<Tile>>, factor: int) -> Seq<int> {
    Seq::new(g.len(), |y: int| if row_empty(g, y) { factor } else { 1 })
}

/// How wide each column becomes: `factor` for an empty column, else 1.
pub open spec fn col_sizes(g: Seq<Seq<Tile>>, factor: int) -> Seq<int> {
    Seq::new(g[0].len(), |x: int| if col_empty(g, x) { factor } else { 1 })
}

/// The sum of the first `n` values of `s`.
pub open spec fn prefix(s: Seq<int>, n: int) -> int
    decreases n,
{
    if n <= 0 { 0 } else { prefix(s, n - 1) + s[n - 1] }
}

/// The sizes of the rows, `factor` for an empty one.
pub fn expand_rows(map: &Image, factor: i64) -> (res: Vec<i64>)
    ensures
        res@.map_values(|v: i64| v as int) == row_sizes(grid(*map), factor as int),
{
    let ghost g = grid(*map);
    let mut out: Vec<i64> = Vec::new();
    let mut y: usize = 0;
    while y < map.data.len()
        invariant
            y <= map.data@.len(),
            g == grid(*map),
            out@.map_values(|v: i64| v as int) =~= row_sizes(g, factor as int).take(y as int),
        decreases map.data@.len() - y,
    {
        let row = &map.data[y];
        assert(g[y as int] == row@);
        let mut all_empty = true;
        let mut x: usize = 0;
        while x < row.len()
            invariant
                y < map.data@.len(),
                x <= row@.len(),
                g[y as int] == row@,
                all_empty <==> forall|k: int| 0 <= k < x ==> row@[k] == Tile::Empty,
            decreases row@.len() - x,
        {
            if row[x] != Tile::Empty {
                all_empty = false;
            }
            x += 1;
        }
        let ghost before = out@.map_values(|v: i64| v as int);
        out.push(if all_empty { factor } else { 1 });
        assert(row_empty(g, y as int) == all_empty);
        assert(out@.map_values(|v: i64| v as int) =~= before.push(row_sizes(g, factor as int)[y as int]));
        y += 1;
    }
    out
}

/// The sizes of the columns, `factor` for an empty one.
pub fn expand_cols(map: &Image, factor: i64) -> (res: Vec<i64>)
    requires
        rect(grid(*map)),
    ensures
        res@.map_values(|v: i64| v as int) == col_sizes(grid(*map), factor as int),
{
    let ghost g = grid(*map);
    let w = map.data[0].len();
    assert(g[0] == map.data@[0]@);
    let mut cols: Vec<i64> = Vec::new();
    let mut x: usize = 0;
    while x < w
        invariant
            x <= w,
            g == grid(*map),
            rect(g),
            w == g[0].len(),
            cols@.map_values(|v: i64| v as int) =~= col_sizes(g, factor as int).take(x as int),
        decreases w - x,
    {
        let mut all_empty = true;
        let mut y: usize = 0;
        while y < map.data.len() && all_empty
            invariant
                y <= map.data@.len(),
                x < w,
                g == grid(*map),
                rect(g),
                w == g[0].len(),
                all_empty <==> forall|k: int| 0 <= k < y ==> g[k][x as int] == Tile::Empty,
                !all_empty ==> !col_empty(g, x as int),
            decreases map.data@.len() - y,
        {
            assert(g[y as int] == map.data@[y as int]@);
            if map.data[y][x] != Tile::Empty {
                all_empty = false;
            }
            y += 1;
        }
        let ghost before = cols@.map_values(|v: i64| v as int);
        cols.push(if all_empty { factor } else { 1 });
        assert(col_empty(g, x as int) == all_empty);
        assert(cols@.map_values(|v: i64| v as int) =~= before.push(col_sizes(g, factor as int)[x as int]));
        x += 1;
    }
    cols
}


/// The galaxies of row `y` among its first `n` tiles, at their expanded
/// places.
pub open spec fn gal_row(g: Seq<Seq<Tile>>, rs: Seq<int>, cs: Seq<int>, y: int, n: int) -> Seq<Pos>
    decreases n,
{
    if n <= 0 {
        Seq::empty()
    } else if g[y][n - 1] == Tile::Galaxy {
        gal_row(g, rs, cs, y, n - 1).push(Pos { x: prefix(cs, n - 1) as i64, y: prefix(rs, y) as i64 })
    } else {
        gal_row(g, rs, cs, y, n - 1)
    }
}

/// The galaxies of the first `m` rows, row by row.
pub open spec fn gal_upto(g: Seq<Seq<Tile>>, rs: Seq<int>, cs: Seq<int>, m: int) -> Seq<Pos>
    decreases m,
{
    if m <= 0 {
        Seq::empty()
    } else {
        gal_upto(g, rs, cs, m - 1) + gal_row(g, rs, cs, m - 1, g[m - 1].len() as int)
    }
}

/// The galaxies in reading order, each at its place in the expanded image.
pub open spec fn galaxies(g: Seq<Seq<Tile>>, factor: int) -> Seq<Pos> {
    gal_upto(g, row_sizes(g, factor), col_sizes(g, factor), g.len() as int)
}

pub proof fn lemma_prefix_nonneg(s: Seq<int>, a: int)
    requires
        0 <= a <= s.len(),
        forall|i: int| 0 <= i < s.len() ==> s[i] >= 0,
    ensures
        0 <= prefix(s, a),
    decreases a,
{
    if a > 0 {
        lemma_prefix_nonneg(s, a - 1);
    }
}

pub proof fn lemma_prefix_mono(s: Seq<int>, a: int, b: int)
    requires
        0 <= a <= b <= s.len(),
        forall|i: int| 0 <= i < s.len() ==> s[i] >= 0,
    ensures
        0 <= prefix(s, a) <= prefix(s, b),
    decreases b - a,
{
    lemma_prefix_nonneg(s, a);
    if a < b {
        lemma_prefix_mono(s, a, b - 1);
    }
}

/// The expansion keeps every place within an `i64`.
pub open spec fn places_fit(g: Seq<Seq<Tile>>, factor: int) -> bool {
    &&& factor >= 0
    &&& prefix(row_sizes(g, factor), g.len() as int) <= i64::MAX
    &&& prefix(col_sizes(g, factor), g[0].len() as int) <= i64::MAX
}

/// The galaxies at their expanded places, in reading order.
pub fn get_galaxies(map: &Image, expansion_factor: i64) -> (res: Vec<Pos>)
    requires
        rect(grid(*map)),
        places_fit(grid(*map), expansion_factor as int),
    ensures
        res@ == galaxies(grid(*map), expansion_factor as int),
{
    let ghost g = grid(*map);
    let exp_rows = expand_rows(map, expansion_factor);
    let exp_cols = expand_cols(map, expansion_factor);
    let ghost rs = row_sizes(g, expansion_factor as int);
    let ghost cs = col_sizes(g, expansion_factor as int);
    assert(exp_rows@.len() == rs.len() && exp_cols@.len() == cs.len());
    let mut ret: Vec<Pos> = Vec::new();
    let mut actual_y: i64 = 0;
    let mut y: usize = 0;
    while y < map.data.len()
        invariant
            g == grid(*map),
            rect(g),
            places_fit(g, expansion_factor as int),
            rs == row_sizes(g, expansion_factor as int),
            cs == col_sizes(g, expansion_factor as int),
            exp_rows@.map_values(|v: i64| v as int) == rs,
            exp_cols@.map_values(|v: i64| v as int) == cs,
            y <= map.data@.len(),
            actual_y == prefix(rs, y as int),
            ret@ == gal_upto(g, rs, cs, y as int),
        decreases map.data@.len() - y,
    {
        let row = &map.data[y];
        assert(g[y as int] == row@);
        proof { lemma_prefix_mono(rs, y + 1, rs.len() as int); }
        let mut actual_x: i64 = 0;
        let mut x: usize = 0;
        let ghost base = ret@;
        while x < row.len()
            invariant
                g == grid(*map),
                rect(g),
                places_fit(g, expansion_factor as int),
                rs == row_sizes(g, expansion_factor as int),
                cs == col_sizes(g, expansion_factor as int),
                exp_cols@.map_values(|v: i64| v as int) == cs,
                y < map.data@.len(),
                g[y as int] == row@,
                x <= row@.len(),
                actual_y == prefix(rs, y as int),
                actual_x == prefix(cs, x as int),
                ret@ == base + gal_row(g, rs, cs, y as int, x as int),
            decreases row@.len() - x,
        {
            if row[x] == Tile::Galaxy {
                let ghost before = ret@;
                ret.push(Pos { x: actual_x, y: actual_y });
                assert(ret@ =~= base + gal_row(g, rs, cs, y as int, x + 1));
            } else {
                assert(gal_row(g, rs, cs, y as int, x + 1) == gal_row(g, rs, cs, y as int, x as int));
            }
            proof { lemma_prefix_mono(cs, x + 1, cs.len() as int); }
            assert(exp_cols@[x as int] as int == cs[x as int]);
            actual_x += exp_cols[x];
            x += 1;
        }
        assert(exp_rows@[y as int] as int == rs[y as int]);
        actual_y += exp_rows[y];
        y += 1;
    }
    ret
}

pub open spec fn absi(v: int) -> int {
    if v < 0 { -v } else { v }
}

pub open spec fn dist(p: Pos, q: Pos) -> int {
    absi(p.x - q.x) + absi(p.y - q.y)
}

/// The distances from galaxy `i` to galaxies `j` onward.
pub open spec fn from_total(gs: Seq<Pos>, i: int, j: int) -> int
    decreases gs.len() - j,
{
    if j < 0 || j >= gs.len() {
        0
    } else {
        dist(gs[i], gs[j]) + from_total(gs, i, j + 1)
    }
}

/// The distances of the pairs whose first galaxy is among the first `i`.
pub open spec fn pairs_total(gs: Seq<Pos>, i: int) -> int
    decreases i,
{
    if i <= 0 {
        0
    } else {
        pairs_total(gs, i - 1) + from_total(gs, i - 1, i)
    }
}

proof fn lemma_from_total_nonneg(gs: Seq<Pos>, i: int, j: int)
    ensures
        from_total(gs, i, j) >= 0,
    decreases gs.len() - j,
{
    if 0 <= j < gs.len() {
        lemma_from_total_nonneg(gs, i, j + 1);
    }
}

proof fn lemma_from_total_mono(gs: Seq<Pos>, i: int, a: int, b: int)
    requires
        0 <= a <= b,
    ensures
        from_total(gs, i, b) <= from_total(gs, i, a),
    decreases b - a,
{
    if a < b {
        lemma_from_total_mono(gs, i, a + 1, b);
        if a < gs.len() {
            assert(dist(gs[i], gs[a]) >= 0);
        }
    }
}

proof fn lemma_pairs_total_mono(gs: Seq<Pos>, a: int, b: int)
    requires
        0 <= a <= b,
    ensures
        0 <= pairs_total(gs, a) <= pairs_total(gs, b),
    decreases b,
{
    if b > 0 {
        lemma_from_total_nonneg(gs, b - 1, b);
        if a < b {
            lemma_pairs_total_mono(gs, a, b - 1);
        } else {
            lemma_pairs_total_mono(gs, a - 1, b - 1);
        }
    }
}

/// The sum of the distances between all pairs of galaxies once each empty
/// row and column has grown `factor` times as tall or wide.
pub fn distances_with_factor(input: &Image, factor: i64) -> (res: i64)
    requires
        rect(grid(*input)),
        places_fit(grid(*input), factor as int),
        pairs_total(galaxies(grid(*input), factor as int), galaxies(grid(*input), factor as int).len() as int) <= i64::MAX,
    ensures
        res == pairs_total(galaxies(grid(*input), factor as int), galaxies(grid(*input), factor as int).len() as int),
{
    let gs = get_galaxies(input, factor);
    let ghost gv = gs@;
    let n = gs.len();
    let ghost rs = row_sizes(grid(*input), factor as int);
    let ghost cs = col_sizes(grid(*input), factor as int);
    proof {
        lemma_gal_bounds(grid(*input), factor as int);
    }
    let mut ret: i64 = 0;
    let mut i: usize = 0;
    while i < n
        invariant
            gv == gs@,
            n == gv.len(),
            i <= n,
            pairs_total(gv, n as int) <= i64::MAX,
            forall|k: int| 0 <= k < n ==> 0 <= (#[trigger] gv[k]).x && 0 <= gv[k].y,
            ret == pairs_total(gv, i as int),
        decreases n - i,
    {
        proof {
            lemma_pairs_total_mono(gv, i + 1, n as int);
            lemma_pairs_total_mono(gv, i as int, i as int);
        }
        let mut j: usize = i + 1;
        while j < n
            invariant
                gv == gs@,
                n == gv.len(),
                i < n,
                i + 1 <= j <= n,
                pairs_total(gv, i + 1) <= i64::MAX,
                0 <= pairs_total(gv, i as int),
                forall|k: int| 0 <= k < n ==> 0 <= (#[trigger] gv[k]).x && 0 <= gv[k].y,
                ret == pairs_total(gv, i as int) + from_total(gv, i as int, i + 1) - from_total(gv, i as int, j as int),
            decreases n - j,
        {
            proof {
                lemma_from_total_nonneg(gv, i as int, j + 1);
                lemma_from_total_mono(gv, i as int, i + 1, j as int);
            }
            let p1 = gs[i];
            let p2 = gs[j];
            let dx = if p1.x >= p2.x { p1.x - p2.x } else { p2.x - p1.x };
            let dy = if p1.y >= p2.y { p1.y - p2.y } else { p2.y - p1.y };
            assert(dist(gv[i as int], gv[j as int]) == dx + dy);
            ret = ret + (dx + dy);
            j += 1;
        }
        i += 1;
    }
    ret
}

/// All galaxies lie at places that are not negative.
pub proof fn lemma_gal_bounds(g: Seq<Seq<Tile>>, factor: int)
    requires
        rect(g),
        places_fit(g, factor),
    ensures
        forall|k: int| 0 <= k < galaxies(g, factor).len() ==> 0 <= (#[trigger] galaxies(g, factor)[k]).x && 0 <= galaxies(g, factor)[k].y,
{
    let rs = row_sizes(g, factor);
    let cs = col_sizes(g, factor);
    assert forall|m: int| 0 <= m <= g.len() implies forall|k: int| 0 <= k < (#[trigger] gal_upto(g, rs, cs, m)).len() ==> 0 <= gal_upto(g, rs, cs, m)[k].x && 0 <= gal_upto(g, rs, cs, m)[k].y by {
        lemma_gal_upto(g, rs, cs, m, factor);
    }
}

proof fn lemma_gal_row(g: Seq<Seq<Tile>>, rs: Seq<int>, cs: Seq<int>, y: int, n: int, factor: int)
    requires
        rect(g),
        places_fit(g, factor),
        rs == row_sizes(g, factor),
        cs == col_sizes(g, factor),
        0 <= y < g.len(),
        0 <= n <= g[0].len(),
    ensures
        forall|k: int| 0 <= k < gal_row(g, rs, cs, y, n).len() ==> 0 <= (#[trigger] gal_row(g, rs, cs, y, n)[k]).x && 0 <= gal_row(g, rs, cs, y, n)[k].y,
    decreases n,
{
    if n > 0 {
        lemma_gal_row(g, rs, cs, y, n - 1, factor);
        assert forall|i: int| 0 <= i < cs.len() implies cs[i] >= 0 by {}
        assert forall|i: int| 0 <= i < rs.len() implies rs[i] >= 0 by {}
        lemma_prefix_mono(cs, n - 1, cs.len() as int);
        lemma_prefix_mono(rs, y, rs.len() as int);
        let prev = gal_row(g, rs, cs, y, n - 1);
        if g[y][n - 1] == Tile::Galaxy {
            let p = Pos { x: prefix(cs, n - 1) as i64, y: prefix(rs, y) as i64 };
            assert(p.x == prefix(cs, n - 1) && p.y == prefix(rs, y));
            assert forall|k: int| 0 <= k < prev.push(p).len() implies 0 <= (#[trigger] prev.push(p)[k]).x && 0 <= prev.push(p)[k].y by {
                if k < prev.len() {
                    assert(prev.push(p)[k] == prev[k]);
                }
            }
        }
    }
}

proof fn lemma_gal_upto(g: Seq<Seq<Tile>>, rs: Seq<int>, cs: Seq<int>, m: int, factor: int)
    requires
        rect(g),
        places_fit(g, factor),
        rs == row_sizes(g, factor),
        cs == col_sizes(g, factor),
        0 <= m <= g.len(),
    ensures
        forall|k: int| 0 <= k < gal_upto(g, rs, cs, m).len() ==> 0 <= (#[trigger] gal_upto(g, rs, cs, m)[k]).x && 0 <= gal_upto(g, rs, cs, m)[k].y,
    decreases m,
{
    if m > 0 {
        lemma_gal_upto(g, rs, cs, m - 1, factor);
        lemma_gal_row(g, rs, cs, m - 1, g[m - 1].len() as int, factor);
        let a = gal_upto(g, rs, cs, m - 1);
        let b = gal_row(g, rs, cs, m - 1, g[m - 1].len() as int);
        assert forall|k: int| 0 <= k < (a + b).len() implies 0 <= (#[trigger] (a + b)[k]).x && 0 <= (a + b)[k].y by {
            if k >= a.len() {
                assert((a + b)[k] == b[k - a.len()]);
            }
        }
    }
}

/// The galaxies of row `y` among its first `n` tiles, as (row, column).
pub open spec fn cells_row(g: Seq<Seq<Tile>>, y: int, n: int) -> Seq<(int, int)>
    decreases n,
{
    if n <= 0 {
        Seq::empty()
    } else if g[y][n - 1] == Tile::Galaxy {
        cells_row(g, y, n - 1).push((y, n - 1))
    } else {
        cells_row(g, y, n - 1)
    }
}

/// The galaxies of the first `m` rows, as (row, column), row by row.
pub open spec fn cells_upto(g: Seq<Seq<Tile>>, m: int) -> Seq<(int, int)>
    decreases m,
{
    if m <= 0 {
        Seq::empty()
    } else {
        cells_upto(g, m - 1) + cells_row(g, m - 1, g[m - 1].len() as int)
    }
}

/// The expanded place of the tile at (row, column) `c`.
pub open spec fn place(rs: Seq<int>, cs: Seq<int>, c: (int, int)) -> Pos {
    Pos { x: prefix(cs, c.1) as i64, y: prefix(rs, c.0) as i64 }
}

proof fn lemma_cells_row(g: Seq<Seq<Tile>>, rs: Seq<int>, cs: Seq<int>, y: int, n: int)
    requires
        0 <= n <= g[y].len(),
    ensures
        gal_row(g, rs, cs, y, n) == cells_row(g, y, n).map_values(|c: (int, int)| place(rs, cs, c)),
        forall|k: int| 0 <= k < cells_row(g, y, n).len() ==> (#[trigger] cells_row(g, y, n)[k]).0 == y
            && 0 <= cells_row(g, y, n)[k].1 < n,
    decreases n,
{
    if n > 0 {
        lemma_cells_row(g, rs, cs, y, n - 1);
        let c = cells_row(g, y, n - 1);
        if g[y][n - 1] == Tile::Galaxy {
            assert(c.push((y, n - 1)).map_values(|c: (int, int)| place(rs, cs, c))
                =~= c.map_values(|c: (int, int)| place(rs, cs, c)).push(place(rs, cs, (y, n - 1))));
            assert forall|k: int| 0 <= k < c.push((y, n - 1)).len() implies (#[trigger] c.push((y, n - 1))[k]).0 == y
                && 0 <= c.push((y, n - 1))[k].1 < n by {
                if k < c.len() {
                    assert(c.push((y, n - 1))[k] == c[k]);
                }
            }
        }
    }
}

proof fn lemma_cells_upto(g: Seq<Seq<Tile>>, rs: Seq<int>, cs: Seq<int>, m: int)
    requires
        rect(g),
        0 <= m <= g.len(),
    ensures
        gal_upto(g, rs, cs, m) == cells_upto(g, m).map_values(|c: (int, int)| place(rs, cs, c)),
        forall|k: int| 0 <= k < cells_upto(g, m).len() ==> 0 <= (#[trigger] cells_upto(g, m)[k]).0 < m
            && 0 <= cells_upto(g, m)[k].1 < g[0].len(),
    decreases m,
{
    if m > 0 {
        lemma_cells_upto(g, rs, cs, m - 1);
        assert(g[m - 1].len() == g[0].len());
        lemma_cells_row(g, rs, cs, m - 1, g[m - 1].len() as int);
        let a = cells_upto(g, m - 1);
        let b = cells_row(g, m - 1, g[m - 1].len() as int);
        assert((a + b).map_values(|c: (int, int)| place(rs, cs, c))
            =~= a.map_values(|c: (int, int)| place(rs, cs, c)) + b.map_values(|c: (int, int)| place(rs, cs, c)));
        assert forall|k: int| 0 <= k < (a + b).len() implies 0 <= (#[trigger] (a + b)[k]).0 < m
            && 0 <= (a + b)[k].1 < g[0].len() by {
            if k < a.len() {
                assert((a + b)[k] == a[k]);
            } else {
                assert((a + b)[k] == b[k - a.len()]);
            }
        }
    }
}

/// Grown sizes: each is `f` where the size for 2 is 2, else 1.
pub open spec fn grown(s: Seq<int>, d: Seq<int>, f: int) -> bool {
    &&& s.len() == d.len()
    &&& forall|i: int| 0 <= i < s.len() ==> (#[trigger] d[i] == 2 && s[i] == f) || (d[i] == 1 && s[i] == 1)
}

proof fn lemma_prefix_grown(s: Seq<int>, d: Seq<int>, f: int, n: int)
    requires
        grown(s, d, f),
        0 <= n <= s.len(),
    ensures
        prefix(s, n) == n + (f - 1) * (prefix(d, n) - n),
        0 <= prefix(d, n) - n <= n,
    decreases n,
{
    if n == 0 {
        assert((f - 1) * 0 == 0) by (nonlinear_arith);
    } else {
        lemma_prefix_grown(s, d, f, n - 1);
        assert(d[n - 1] == 2 || d[n - 1] == 1);
        let e = prefix(d, n - 1) - (n - 1);
        assert(prefix(s, n) == (n - 1) + (f - 1) * e + s[n - 1]);
        let ps = prefix(s, n);
        let pd = prefix(d, n);
        if d[n - 1] == 2 {
            assert(ps == n + (f - 1) * (pd - n)) by (nonlinear_arith)
                requires
                    ps == (n - 1) + (f - 1) * e + f,
                    pd - n == e + 1;
        } else {
            assert(ps == n + (f - 1) * (pd - n)) by (nonlinear_arith)
                requires
                    ps == (n - 1) + (f - 1) * e + 1,
                    pd - n == e;
        }
    }
}

proof fn lemma_prefix_grown_step(d: Seq<int>, a: int, b: int)
    requires
        forall|i: int| 0 <= i < d.len() ==> #[trigger] d[i] == 2 || d[i] == 1,
        0 <= a <= b <= d.len(),
    ensures
        0 <= (prefix(d, b) - b) - (prefix(d, a) - a) <= b - a,
    decreases b - a,
{
    if a < b {
        lemma_prefix_grown_step(d, a, b - 1);
        assert(d[b - 1] == 2 || d[b - 1] == 1);
    }
}

proof fn lemma_abs_grown(a: int, b: int, ea: int, eb: int, f: int)
    requires
        f >= 1,
        a <= b ==> 0 <= eb - ea <= b - a,
        b <= a ==> 0 <= ea - eb <= a - b,
    ensures
        absi((b + (f - 1) * eb) - (a + (f - 1) * ea)) == absi(b - a) + (f - 1) * absi(eb - ea),
{
    if a <= b {
        assert((b + (f - 1) * eb) - (a + (f - 1) * ea) == (b - a) + (f - 1) * (eb - ea)) by (nonlinear_arith);
        assert((f - 1) * (eb - ea) >= 0) by (nonlinear_arith)
            requires
                f >= 1,
                eb - ea >= 0;
    } else {
        assert((a + (f - 1) * ea) - (b + (f - 1) * eb) == (a - b) + (f - 1) * (ea - eb)) by (nonlinear_arith);
        assert((f - 1) * (ea - eb) >= 0) by (nonlinear_arith)
            requires
                f >= 1,
                ea - eb >= 0;
    }
}

/// One coordinate of two places: grown by `f`, its difference is the
/// ungrown one plus `f - 1` times what doubling adds.
proof fn lemma_coord_grown(s: Seq<int>, one: Seq<int>, d: Seq<int>, f: int, a: int, b: int)
    requires
        grown(s, d, f),
        grown(one, d, 1),
        grown(d, d, 2),
        f >= 1,
        0 <= a <= s.len(),
        0 <= b <= s.len(),
    ensures
        absi(prefix(s, b) - prefix(s, a)) == absi(prefix(one, b) - prefix(one, a))
            + (f - 1) * (absi(prefix(d, b) - prefix(d, a)) - absi(prefix(one, b) - prefix(one, a))),
{
    lemma_prefix_grown(s, d, f, a);
    lemma_prefix_grown(s, d, f, b);
    lemma_prefix_grown(one, d, 1, a);
    lemma_prefix_grown(one, d, 1, b);
    assert(forall|i: int| 0 <= i < d.len() ==> #[trigger] d[i] == 2 || d[i] == 1);
    let ea = prefix(d, a) - a;
    let eb = prefix(d, b) - b;
    assert((1 - 1) * ea == 0 && (1 - 1) * eb == 0) by (nonlinear_arith);
    assert(prefix(one, a) == a && prefix(one, b) == b);
    if a <= b {
        lemma_prefix_grown_step(d, a, b);
    } else {
        lemma_prefix_grown_step(d, b, a);
    }
    lemma_abs_grown(a, b, ea, eb, f);
    lemma_abs_grown(a, b, ea, eb, 2);
    assert((2 - 1) * absi(eb - ea) == absi(eb - ea)) by (nonlinear_arith);
    assert(prefix(d, b) - prefix(d, a) == (b + eb) - (a + ea));
}

/// Every distance between the places `a` equals the one between the places
/// `one` plus `f - 1` times what the places `two` add to it.
pub open spec fn dists_grown(a: Seq<Pos>, one: Seq<Pos>, two: Seq<Pos>, f: int) -> bool {
    &&& a.len() == one.len()
    &&& a.len() == two.len()
    &&& forall|i: int, j: int| 0 <= i < a.len() && 0 <= j < a.len() ==> #[trigger] dist(a[i], a[j])
        == dist(one[i], one[j]) + (f - 1) * (dist(two[i], two[j]) - dist(one[i], one[j]))
}

proof fn lemma_from_total_grown(a: Seq<Pos>, one: Seq<Pos>, two: Seq<Pos>, f: int, i: int, j: int)
    requires
        dists_grown(a, one, two, f),
        0 <= i < a.len(),
        j >= 0,
    ensures
        from_total(a, i, j) == from_total(one, i, j) + (f - 1) * (from_total(two, i, j) - from_total(one, i, j)),
    decreases a.len() - j,
{
    if j < a.len() {
        lemma_from_total_grown(a, one, two, f, i, j + 1);
        let da = dist(a[i], a[j]);
        let d1 = dist(one[i], one[j]);
        let d2 = dist(two[i], two[j]);
        let ra = from_total(a, i, j + 1);
        let r1 = from_total(one, i, j + 1);
        let r2 = from_total(two, i, j + 1);
        assert(da + ra == (d1 + r1) + (f - 1) * ((d2 + r2) - (d1 + r1))) by (nonlinear_arith)
            requires
                da == d1 + (f - 1) * (d2 - d1),
                ra == r1 + (f - 1) * (r2 - r1);
    } else {
        assert((f - 1) * (0 - 0) == 0) by (nonlinear_arith);
    }
}

proof fn lemma_pairs_total_grown(a: Seq<Pos>, one: Seq<Pos>, two: Seq<Pos>, f: int, n: int)
    requires
        dists_grown(a, one, two, f),
        0 <= n <= a.len(),
    ensures
        pairs_total(a, n) == pairs_total(one, n) + (f - 1) * (pairs_total(two, n) - pairs_total(one, n)),
    decreases n,
{
    if n > 0 {
        lemma_pairs_total_grown(a, one, two, f, n - 1);
        lemma_from_total_grown(a, one, two, f, n - 1, n);
        let pa = pairs_total(a, n - 1);
        let p1 = pairs_total(one, n - 1);
        let p2 = pairs_total(two, n - 1);
        let fa = from_total(a, n - 1, n);
        let f1 = from_total(one, n - 1, n);
        let f2 = from_total(two, n - 1, n);
        assert(pa + fa == (p1 + f1) + (f - 1) * ((p2 + f2) - (p1 + f1))) by (nonlinear_arith)
            requires
                pa == p1 + (f - 1) * (p2 - p1),
                fa == f1 + (f - 1) * (f2 - f1);
    } else {
        assert((f - 1) * (0 - 0) == 0) by (nonlinear_arith);
    }
}

/// The sum of the distances grows linearly with the expansion factor: for
/// a factor `f` it is the sum for 1 plus `f - 1` times what doubling adds
/// to it (where every place fits in an `i64` for `f`, 1 and 2).
pub proof fn lemma_total_linear(g: Seq<Seq<Tile>>, f: int)
    requires
        rect(g),
        f >= 1,
        places_fit(g, f),
        places_fit(g, 1),
        places_fit(g, 2),
    ensures
        galaxies(g, f).len() == galaxies(g, 1).len(),
        galaxies(g, f).len() == galaxies(g, 2).len(),
        pairs_total(galaxies(g, f), galaxies(g, f).len() as int) == pairs_total(galaxies(g, 1), galaxies(g, 1).len() as int)
            + (f - 1) * (pairs_total(galaxies(g, 2), galaxies(g, 2).len() as int) - pairs_total(galaxies(g, 1), galaxies(g, 1).len() as int)),
{
    let h = g.len() as int;
    let w = g[0].len() as int;
    let cells = cells_upto(g, h);
    let (rf, cf) = (row_sizes(g, f), col_sizes(g, f));
    let (r1, c1) = (row_sizes(g, 1), col_sizes(g, 1));
    let (r2, c2) = (row_sizes(g, 2), col_sizes(g, 2));
    lemma_cells_upto(g, rf, cf, h);
    lemma_cells_upto(g, r1, c1, h);
    lemma_cells_upto(g, r2, c2, h);
    let a = galaxies(g, f);
    let one = galaxies(g, 1);
    let two = galaxies(g, 2);
    assert(grown(rf, r2, f) && grown(r1, r2, 1) && grown(r2, r2, 2));
    assert(grown(cf, c2, f) && grown(c1, c2, 1) && grown(c2, c2, 2));
    assert forall|t: int| 0 <= t < rf.len() implies rf[t] >= 0 && r1[t] >= 0 && r2[t] >= 0 by {}
    assert forall|t: int| 0 <= t < cf.len() implies cf[t] >= 0 && c1[t] >= 0 && c2[t] >= 0 by {}
    assert forall|i: int, j: int| 0 <= i < a.len() && 0 <= j < a.len() implies #[trigger] dist(a[i], a[j])
        == dist(one[i], one[j]) + (f - 1) * (dist(two[i], two[j]) - dist(one[i], one[j])) by {
        let p = cells[i];
        let q = cells[j];
        lemma_prefix_mono(rf, p.0, h);
        lemma_prefix_mono(rf, q.0, h);
        lemma_prefix_mono(r1, p.0, h);
        lemma_prefix_mono(r1, q.0, h);
        lemma_prefix_mono(r2, p.0, h);
        lemma_prefix_mono(r2, q.0, h);
        lemma_prefix_mono(cf, p.1, w);
        lemma_prefix_mono(cf, q.1, w);
        lemma_prefix_mono(c1, p.1, w);
        lemma_prefix_mono(c1, q.1, w);
        lemma_prefix_mono(c2, p.1, w);
        lemma_prefix_mono(c2, q.1, w);
        lemma_coord_grown(rf, r1, r2, f, q.0, p.0);
        lemma_coord_grown(cf, c1, c2, f, q.1, p.1);
        let xf = absi(prefix(cf, p.1) - prefix(cf, q.1));
        let x1 = absi(prefix(c1, p.1) - prefix(c1, q.1));
        let x2 = absi(prefix(c2, p.1) - prefix(c2, q.1));
        let yf = absi(prefix(rf, p.0) - prefix(rf, q.0));
        let y1 = absi(prefix(r1, p.0) - prefix(r1, q.0));
        let y2 = absi(prefix(r2, p.0) - prefix(r2, q.0));
        assert(a[i] == place(rf, cf, p) && a[j] == place(rf, cf, q));
        assert(one[i] == place(r1, c1, p) && one[j] == place(r1, c1, q));
        assert(two[i] == place(r2, c2, p) && two[j] == place(r2, c2, q));
        assert(dist(a[i], a[j]) == xf + yf);
        assert(dist(one[i], one[j]) == x1 + y1);
        assert(dist(two[i], two[j]) == x2 + y2);
        assert(xf + yf == (x1 + y1) + (f - 1) * ((x2 + y2) - (x1 + y1))) by (nonlinear_arith)
            requires
                xf == x1 + (f - 1) * (x2 - x1),
                yf == y1 + (f - 1) * (y2 - y1);
    }
    lemma_pairs_total_grown(a, one, two, f, a.len() as int);
}

/// The distances with empty rows and columns doubled.
pub fn part1(input: &Image) -> (res: i64)
    requires
        rect(grid(*input)),
        places_fit(grid(*input), 2),
        pairs_total(galaxies(grid(*input), 2), galaxies(grid(*input), 2).len() as int) <= i64::MAX,
    ensures
        res == pairs_total(galaxies(grid(*input), 2), galaxies(grid(*input), 2).len() as int),
{
    distances_with_factor(input, 2)
}

/// The distances with empty rows and columns a million times as large.
pub fn part2(input: &Image) -> (res: i64)
    requires
        rect(grid(*input)),
        places_fit(grid(*input), 1000000),
        pairs_total(galaxies(grid(*input), 1000000), galaxies(grid(*input), 1000000).len() as int) <= i64::MAX,
    ensures
        res == pairs_total(galaxies(grid(*input), 1000000), galaxies(grid(*input), 1000000).len() as int),
{
    distances_with_factor(input, 1000000)
}

} // verus!
