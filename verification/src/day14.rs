//! Parabolic reflector dish: rolling the round rocks by tilting the
//! platform, and its load after a billion spin cycles.
use vstd::prelude::*;
use ndarray::{Array2, ShapeError};
use crate::arrays::{flatten, reshape, MapError};
use crate::grid::{lemma_rows_from_alpha, spec_grid, parse_grid};
use crate::text::rows_view;

verus! {

/// A place on the platform.
#[derive(Debug, Clone, Copy, PartialEq, Eq, Hash, Structural)]
pub enum Tile {
    Empty,
    Round,
    Cube,
}

/// The platform, held in an `ndarray` array.
#[verifier::external_body]
pub struct Platform {
    data: Array2<Tile>,
}

/// The places of a platform, row by row.
pub uninterp spec fn platform_rows(p: Platform) -> Seq<Seq<Tile>>;

/// The number of places in each row of a platform.
pub uninterp spec fn platform_width(p: Platform) -> nat;

/// `Array2::from_shape_vec` with the shape `(h, w)`: it succeeds exactly
/// when `flat` holds `h * w` items and that count fits in an `isize`, and the
/// array then holds `flat` row after row.
#[verifier::external_body]
fn platform_from_shape_vec(h: usize, w: usize, flat: Vec<Tile>) -> (res: Result<Platform, ShapeError>)
    requires
        h >= 1,
        w >= 1,
    ensures
        res is Ok <==> (h * w == flat@.len() && h * w <= isize::MAX),
        res matches Ok(p) ==> platform_width(p) == w && platform_rows(p) == reshape(flat@, h as int, w as int),
{
    match Array2::from_shape_vec((h, w), flat) {
        Ok(data) => Ok(Platform { data }),
        Err(e) => Err(e),
    }
}

/// `ArrayBase::dim` on a platform: its number of rows and of places per row.
#[verifier::external_body]
fn platform_dim(p: &Platform) -> (res: (usize, usize))
    ensures
        res.0 == platform_rows(*p).len() && res.1 == platform_width(*p) && forall|y: int|
            0 <= y < res.0 ==> (#[trigger] platform_rows(*p)[y]).len() == res.1,
{
    p.data.dim()
}

/// Indexing a platform by `(row, column)`.
#[verifier::external_body]
fn platform_at(p: &Platform, y: usize, x: usize) -> (res: Tile)
    requires
        y < platform_rows(*p).len(),
        x < platform_width(*p),
    ensures
        res == platform_rows(*p)[y as int][x as int],
{
    p.data[(y, x)]
}

/// Assigning to a place of a platform through `IndexMut`.
#[verifier::external_body]
fn platform_set(p: &mut Platform, y: usize, x: usize, t: Tile)
    requires
        y < platform_rows(*old(p)).len(),
        x < platform_width(*old(p)),
    ensures
        platform_width(*final(p)) == platform_width(*old(p)),
        platform_rows(*final(p)) == platform_rows(*old(p)).update(y as int, platform_rows(*old(p))[y as int].update(x as int, t)),
{
    p.data[(y, x)] = t;
}

/// `Clone` on the array of a platform: a platform with the same places.
#[verifier::external_body]
fn platform_clone(p: &Platform) -> (res: Platform)
    ensures
        platform_rows(res) == platform_rows(*p) && platform_width(res) == platform_width(*p),
{
    Platform { data: p.data.clone() }
}

/// Whether two platforms are equal: the same shape and the same places.
#[verifier::loop_isolation(false)]
fn platform_eq(a: &Platform, b: &Platform) -> (res: bool)
    ensures
        res == (platform_rows(*a) == platform_rows(*b) && platform_width(*a) == platform_width(*b)),
{
    let ghost ra = platform_rows(*a);
    let ghost rb = platform_rows(*b);
    let (ha, wa) = platform_dim(a);
    let (hb, wb) = platform_dim(b);
    if ha != hb || wa != wb {
        return false;
    }
    let mut y: usize = 0;
    while y < ha
        invariant
            y <= ha,
            forall|k: int| 0 <= k < y ==> #[trigger] ra[k] == rb[k],
        decreases ha - y,
    {
        let mut x: usize = 0;
        while x < wa
            invariant
                y < ha,
                x <= wa,
                forall|k: int| 0 <= k < x ==> #[trigger] ra[y as int][k] == rb[y as int][k],
            decreases wa - x,
        {
            if platform_at(a, y, x) != platform_at(b, y, x) {
                return false;
            }
            x += 1;
        }
        assert(ra[y as int] =~= rb[y as int]);
        y += 1;
    }
    assert(ra =~= rb);
    true
}

pub open spec fn tile_alpha() -> Seq<u8> {
    seq![79u8, 35u8, 46u8]
}

/// `O` is a round rock, `#` a cube-shaped rock, `.` an empty place.
pub open spec fn tile_of(c: u8) -> Tile {
    if c == 79u8 {
        Tile::Round
    } else if c == 35u8 {
        Tile::Cube
    } else {
        Tile::Empty
    }
}

pub open spec fn tiles_of(rows: Seq<Seq<u8>>) -> Seq<Tile> {
    flatten(rows).map_values(|c: u8| tile_of(c))
}

/// Reads the platform: lines of `O`, `#` and `.` (what follows them is left
/// unread), the first of which gives the width, all of them read row after
/// row into an array of that width.
pub fn input_gen(input: &[u8]) -> (res: Result<Platform, MapError>)
    ensures
        match spec_grid(input@, tile_alpha(), false) {
            None => res == Err::<Platform, MapError>(MapError::Syntax),
            Some(rows) => {
                let h = rows.len() as int;
                let w = rows[0].len() as int;
                let flat = tiles_of(rows);
                if h * w == flat.len() && h * w <= isize::MAX {
                    res matches Ok(p) && platform_width(p) == w && platform_rows(p) == reshape(flat, h, w)
                        && platform_ok(platform_rows(p), w)
                } else {
                    res == Err::<Platform, MapError>(MapError::Shape)
                }
            },
        },
{
    let alpha: Vec<u8> = vec![79u8, 35u8, 46u8];
    assert(alpha@ =~= tile_alpha());
    let rows = match parse_grid(input, alpha.as_slice(), false) {
        Ok(rows) => rows,
        Err(_) => return Err(MapError::Syntax),
    };
    let ghost rv = rows_view(rows@);
    proof {
        lemma_rows_from_alpha(input@, 0, tile_alpha());
    }
    let mut flat: Vec<Tile> = Vec::new();
    let mut y: usize = 0;
    while y < rows.len()
        invariant
            y <= rows@.len(),
            rv == rows_view(rows@),
            flat@ == tiles_of(rv.take(y as int)),
        decreases rows@.len() - y,
    {
        let ghost before = flat@;
        let mut x: usize = 0;
        while x < rows[y].len()
            invariant
                y < rows@.len(),
                x <= rows@[y as int]@.len(),
                flat@ == before + rows@[y as int]@.take(x as int).map_values(|c: u8| tile_of(c)),
            decreases rows@[y as int]@.len() - x,
        {
            let c = rows[y][x];
            let t = if c == 79u8 {
                Tile::Round
            } else if c == 35u8 {
                Tile::Cube
            } else {
                Tile::Empty
            };
            flat.push(t);
            assert(rows@[y as int]@.take(x + 1).map_values(|c: u8| tile_of(c))
                =~= rows@[y as int]@.take(x as int).map_values(|c: u8| tile_of(c)).push(tile_of(c)));
            x += 1;
        }
        proof {
            assert(rows@[y as int]@.take(x as int) =~= rows@[y as int]@);
            assert(rv[y as int] == rows@[y as int]@);
            assert(rv.take(y + 1).drop_last() =~= rv.take(y as int));
            assert(tiles_of(rv.take(y + 1)) =~= tiles_of(rv.take(y as int)) + rv[y as int].map_values(|c: u8| tile_of(c)));
        }
        y += 1;
    }
    assert(rv.take(rows@.len() as int) =~= rv);
    let h = rows.len();
    let w = rows[0].len();
    assert(rv[0] == rows@[0]@);
    assert(rv[0].len() > 0);
    match platform_from_shape_vec(h, w, flat) {
        Ok(p) => {
            proof {
                let (hi, wi) = (h as int, w as int);
                assert forall|y: int| 0 <= y < hi implies (#[trigger] platform_rows(p)[y]).len() == wi by {
                    assert(0 <= y * wi && y * wi + wi <= hi * wi) by (nonlinear_arith)
                        requires
                            0 <= y < hi,
                            wi >= 0;
                }
            }
            Ok(p)
        },
        Err(_) => Err(MapError::Shape),
    }
}


/// The number of empty places right before index `k` of a lane.
pub open spec fn empties_before(s: Seq<Tile>, k: int) -> nat
    decreases k,
{
    if k <= 0 || s[k - 1] != Tile::Empty {
        0
    } else {
        1 + empties_before(s, k - 1)
    }
}

/// The lane with the places at `k` and `j` swapped.
pub open spec fn swapped(s: Seq<Tile>, k: int, j: int) -> Seq<Tile> {
    s.update(k, s[j]).update(j, s[k])
}

/// The lane after the round rocks at indices 1 to `n - 1`, one after the
/// other, have rolled toward index 0 over the empty places before them.
pub open spec fn rolled(s: Seq<Tile>, n: nat) -> Seq<Tile>
    decreases n,
{
    if n <= 1 {
        s
    } else {
        let t = rolled(s, (n - 1) as nat);
        let k = n - 1;
        if t[k] == Tile::Round {
            swapped(t, k, k - empties_before(t, k))
        } else {
            t
        }
    }
}

proof fn lemma_empties_before(s: Seq<Tile>, k: int)
    requires
        0 <= k < s.len(),
    ensures
        empties_before(s, k) <= k,
        forall|m: int| k - empties_before(s, k) <= m < k ==> s[m] == Tile::Empty,
    decreases k,
{
    if k > 0 && s[k - 1] == Tile::Empty {
        lemma_empties_before(s, k - 1);
    }
}

proof fn lemma_rolled_len(s: Seq<Tile>, n: nat)
    requires
        n <= s.len(),
    ensures
        rolled(s, n).len() == s.len(),
    decreases n,
{
    if n > 1 {
        lemma_rolled_len(s, (n - 1) as nat);
        lemma_empties_before(rolled(s, (n - 1) as nat), n - 1);
    }
}

/// Rolls the round rocks of a lane toward index 0 (see `rolled`).
fn roll(s: &mut Vec<Tile>)
    ensures
        final(s)@ == rolled(old(s)@, old(s)@.len()),
{
    let ghost orig = s@;
    let mut i: usize = 1;
    if s.len() == 0 {
        return;
    }
    while i < s.len()
        invariant
            1 <= i <= s@.len(),
            s@.len() == orig.len(),
            s@ == rolled(orig, i as nat),
        decreases s@.len() - i,
    {
        if s[i] == Tile::Round {
            let ghost t = s@;
            proof {
                lemma_empties_before(t, i as int);
            }
            let mut j = i;
            while j > 0 && s[j - 1] == Tile::Empty
                invariant
                    1 <= i < s@.len(),
                    s@ == t,
                    0 <= j <= i,
                    empties_before(t, i as int) == (i - j) + empties_before(t, j as int),
                decreases j,
            {
                j -= 1;
            }
            assert(empties_before(t, j as int) == 0);
            let a = s[i];
            let b = s[j];
            s.set(i, b);
            s.set(j, a);
            assert(s@ =~= swapped(t, i as int, j as int));
        }
        i += 1;
    }
}


/// No round rock has an empty place right before it.
pub open spec fn settled(s: Seq<Tile>) -> bool {
    settled_upto(s, s.len() as int)
}

/// No round rock among the first `n` places has an empty place right
/// before it.
pub open spec fn settled_upto(s: Seq<Tile>, n: int) -> bool {
    forall|i: int| 0 < i < n && #[trigger] s[i] == Tile::Round ==> s[i - 1] != Tile::Empty
}

proof fn lemma_swapped_multiset(s: Seq<Tile>, k: int, j: int)
    requires
        0 <= k < s.len(),
        0 <= j < s.len(),
    ensures
        swapped(s, k, j).to_multiset() == s.to_multiset(),
{
    broadcast use vstd::multiset::group_multiset_axioms;
    broadcast use vstd::seq_lib::to_multiset_update;
    broadcast use vstd::seq_lib::to_multiset_contains;
    let s1 = s.update(k, s[j]);
    assert(s1[j] == s[j] || k == j);
    if k == j {
        assert(swapped(s, k, j) =~= s);
    } else {
        assert(s.to_multiset().count(s[k]) > 0);
        assert(s.to_multiset().insert(s[j]).remove(s[k]).insert(s[k]).remove(s[j]) =~= s.to_multiset());
    }
}

/// Rolling moves no cube rock.
pub proof fn lemma_rolled_cubes(s: Seq<Tile>, n: nat)
    requires
        n <= s.len(),
    ensures
        rolled(s, n).len() == s.len(),
        forall|i: int| 0 <= i < s.len() ==> (#[trigger] rolled(s, n)[i] == Tile::Cube <==> s[i] == Tile::Cube),
    decreases n,
{
    if n > 1 {
        lemma_rolled_cubes(s, (n - 1) as nat);
        let t = rolled(s, (n - 1) as nat);
        let k = n - 1;
        lemma_empties_before(t, k);
        let m = k - empties_before(t, k);
        if t[k] == Tile::Round {
            assert forall|i: int| 0 <= i < s.len() implies (#[trigger] rolled(s, n)[i] == Tile::Cube <==> s[i] == Tile::Cube) by {
                assert(t[i] == Tile::Cube <==> s[i] == Tile::Cube);
            }
        }
    }
}

/// Rolling only reorders a lane: its rocks stay as many as they were.
pub proof fn lemma_rolled_multiset(s: Seq<Tile>, n: nat)
    requires
        n <= s.len(),
    ensures
        rolled(s, n).to_multiset() == s.to_multiset(),
    decreases n,
{
    if n > 1 {
        lemma_rolled_multiset(s, (n - 1) as nat);
        lemma_rolled_len(s, (n - 1) as nat);
        let t = rolled(s, (n - 1) as nat);
        let k = n - 1;
        lemma_empties_before(t, k);
        if t[k] == Tile::Round {
            lemma_swapped_multiset(t, k, k - empties_before(t, k));
        }
    }
}

/// After rolling, the first `n` places of the lane are settled.
#[verifier::rlimit(40)]
pub proof fn lemma_rolled_settles(s: Seq<Tile>, n: nat)
    requires
        n <= s.len(),
    ensures
        settled_upto(rolled(s, n), n as int),
    decreases n,
{
    if n > 1 {
        lemma_rolled_settles(s, (n - 1) as nat);
        lemma_rolled_len(s, (n - 1) as nat);
        let t = rolled(s, (n - 1) as nat);
        let k = n - 1;
        lemma_empties_before(t, k);
        let m = k - empties_before(t, k);
        if t[k] == Tile::Round {
            let r = swapped(t, k, m);
            assert(r == rolled(s, n));
            assert(m == 0 || t[m - 1] != Tile::Empty) by {
                lemma_empties_run(t, k);
            }
            assert forall|i: int| 0 < i < n && #[trigger] r[i] == Tile::Round implies r[i - 1] != Tile::Empty by {
                if i < m {
                    assert(r[i] == t[i] && r[i - 1] == t[i - 1]);
                } else if i > m {
                    assert(r[i] == Tile::Empty);
                } else if i == m && m < k {
                    assert(r[i - 1] == t[i - 1]);
                }
            }
        }
    }
}

proof fn lemma_empties_run(s: Seq<Tile>, k: int)
    requires
        0 <= k < s.len(),
    ensures
        k - empties_before(s, k) == 0 || s[k - empties_before(s, k) - 1] != Tile::Empty,
    decreases k,
{
    if k > 0 && s[k - 1] == Tile::Empty {
        lemma_empties_run(s, k - 1);
    }
}

/// Rolling a settled lane changes nothing.
pub proof fn lemma_rolled_settled(s: Seq<Tile>, n: nat)
    requires
        n <= s.len(),
        settled(s),
    ensures
        rolled(s, n) == s,
    decreases n,
{
    if n > 1 {
        lemma_rolled_settled(s, (n - 1) as nat);
        let k = n - 1;
        if s[k] == Tile::Round {
            assert(s[k - 1] != Tile::Empty);
            assert(swapped(s, k, k) =~= s);
        }
    }
}

/// Rolling a lane twice is rolling it once.
pub proof fn lemma_rolled_twice(s: Seq<Tile>)
    ensures
        rolled(rolled(s, s.len()), s.len()) == rolled(s, s.len()),
{
    lemma_rolled_settles(s, s.len());
    lemma_rolled_len(s, s.len());
    lemma_rolled_settled(rolled(s, s.len()), s.len());
}

/// The number of lanes along `axis` on a platform of `h` rows of `w` places:
/// lane `i` along axis 1 is column `i`, along axis 0 row `i`.
pub open spec fn lane_count(h: int, w: int, axis: int) -> int {
    if axis == 1 { w } else { h }
}

/// The number of places in a lane along `axis`.
pub open spec fn lane_len(h: int, w: int, axis: int) -> int {
    if axis == 1 { h } else { w }
}

/// The row of slot `t` of lane `i`, the lane read forward (`dir` 1) or
/// backward (`dir` -1).
pub open spec fn slot_y(h: int, w: int, axis: int, dir: int, i: int, t: int) -> int {
    if axis == 1 {
        if dir == 1 { t } else { h - 1 - t }
    } else {
        i
    }
}

/// The column of slot `t` of lane `i` (see `slot_y`).
pub open spec fn slot_x(h: int, w: int, axis: int, dir: int, i: int, t: int) -> int {
    if axis == 1 {
        i
    } else {
        if dir == 1 { t } else { w - 1 - t }
    }
}

/// The lane of the place `(y, x)`.
pub open spec fn lane_of(axis: int, y: int, x: int) -> int {
    if axis == 1 { x } else { y }
}

/// The slot of the place `(y, x)` in its lane.
pub open spec fn slot_of(h: int, w: int, axis: int, dir: int, y: int, x: int) -> int {
    if axis == 1 {
        if dir == 1 { y } else { h - 1 - y }
    } else {
        if dir == 1 { x } else { w - 1 - x }
    }
}

/// Lane `i` of the platform `rows` (of width `w`), read in direction `dir`.
pub open spec fn lane(rows: Seq<Seq<Tile>>, w: int, axis: int, dir: int, i: int) -> Seq<Tile> {
    let h = rows.len() as int;
    Seq::new(lane_len(h, w, axis) as nat, |t: int| rows[slot_y(h, w, axis, dir, i, t)][slot_x(h, w, axis, dir, i, t)])
}

/// The place `(y, x)` once every lane along `axis` has rolled toward its
/// start in direction `dir`.
pub open spec fn tilted_at(rows: Seq<Seq<Tile>>, w: int, axis: int, dir: int, y: int, x: int) -> Tile {
    let l = lane(rows, w, axis, dir, lane_of(axis, y, x));
    rolled(l, l.len())[slot_of(rows.len() as int, w, axis, dir, y, x)]
}

/// The platform tilted: every lane along `axis`, read in direction `dir`,
/// has its round rocks rolled toward its start. Along axis 1 with `dir` 1
/// they roll north, with -1 south; along axis 0 west and east.
pub open spec fn tilted(rows: Seq<Seq<Tile>>, w: int, axis: int, dir: int) -> Seq<Seq<Tile>> {
    Seq::new(rows.len(), |y: int| Seq::new(w as nat, |x: int| tilted_at(rows, w, axis, dir, y, x)))
}

/// The platform with the lanes before `i`, and the first `t` slots of lane
/// `i`, tilted.
pub open spec fn part_tilted(rows: Seq<Seq<Tile>>, w: int, axis: int, dir: int, i: int, t: int) -> Seq<Seq<Tile>> {
    Seq::new(rows.len(), |y: int| Seq::new(w as nat, |x: int|
        if lane_of(axis, y, x) < i || (lane_of(axis, y, x) == i && slot_of(rows.len() as int, w, axis, dir, y, x) < t) {
            tilted_at(rows, w, axis, dir, y, x)
        } else {
            rows[y][x]
        }))
}

/// Every row of the platform `rows` has `w` places.
pub open spec fn platform_ok(rows: Seq<Seq<Tile>>, w: int) -> bool {
    forall|y: int| 0 <= y < rows.len() ==> (#[trigger] rows[y]).len() == w
}

proof fn lemma_slot_place(h: int, w: int, axis: int, dir: int, i: int, t: int)
    requires
        axis == 0 || axis == 1,
        dir == 1 || dir == -1,
        0 <= i < lane_count(h, w, axis),
        0 <= t < lane_len(h, w, axis),
    ensures
        0 <= slot_y(h, w, axis, dir, i, t) < h,
        0 <= slot_x(h, w, axis, dir, i, t) < w,
        lane_of(axis, slot_y(h, w, axis, dir, i, t), slot_x(h, w, axis, dir, i, t)) == i,
        slot_of(h, w, axis, dir, slot_y(h, w, axis, dir, i, t), slot_x(h, w, axis, dir, i, t)) == t,
{
}

proof fn lemma_place_slot(h: int, w: int, axis: int, dir: int, y: int, x: int)
    requires
        axis == 0 || axis == 1,
        dir == 1 || dir == -1,
        0 <= y < h,
        0 <= x < w,
    ensures
        0 <= lane_of(axis, y, x) < lane_count(h, w, axis),
        0 <= slot_of(h, w, axis, dir, y, x) < lane_len(h, w, axis),
        slot_y(h, w, axis, dir, lane_of(axis, y, x), slot_of(h, w, axis, dir, y, x)) == y,
        slot_x(h, w, axis, dir, lane_of(axis, y, x), slot_of(h, w, axis, dir, y, x)) == x,
{
}

/// Each lane of the tilted platform is that lane rolled.
pub proof fn lemma_lane_tilted(rows: Seq<Seq<Tile>>, w: int, axis: int, dir: int, i: int)
    requires
        platform_ok(rows, w),
        w >= 0,
        axis == 0 || axis == 1,
        dir == 1 || dir == -1,
        0 <= i < lane_count(rows.len() as int, w, axis),
    ensures
        lane(tilted(rows, w, axis, dir), w, axis, dir, i) == rolled(lane(rows, w, axis, dir, i), lane(rows, w, axis, dir, i).len()),
{
    let h = rows.len() as int;
    let l = lane(rows, w, axis, dir, i);
    lemma_rolled_len(l, l.len());
    let a = lane(tilted(rows, w, axis, dir), w, axis, dir, i);
    let b = rolled(l, l.len());
    assert forall|t: int| 0 <= t < a.len() implies a[t] == b[t] by {
        lemma_slot_place(h, w, axis, dir, i, t);
    }
    assert(a =~= b);
}

/// Tilting twice the same way is tilting once: a tilted platform stays as
/// it is.
pub proof fn lemma_tilt_twice(rows: Seq<Seq<Tile>>, w: int, axis: int, dir: int)
    requires
        platform_ok(rows, w),
        w >= 0,
        axis == 0 || axis == 1,
        dir == 1 || dir == -1,
    ensures
        tilted(tilted(rows, w, axis, dir), w, axis, dir) == tilted(rows, w, axis, dir),
{
    let h = rows.len() as int;
    let t1 = tilted(rows, w, axis, dir);
    let t2 = tilted(t1, w, axis, dir);
    assert(platform_ok(t1, w));
    assert forall|y: int| 0 <= y < h implies t2[y] =~= t1[y] by {
        assert forall|x: int| 0 <= x < w implies t2[y][x] == t1[y][x] by {
            lemma_place_slot(h, w, axis, dir, y, x);
            let li = lane_of(axis, y, x);
            lemma_lane_tilted(rows, w, axis, dir, li);
            let l = lane(rows, w, axis, dir, li);
            lemma_rolled_len(l, l.len());
            lemma_rolled_twice(l);
        }
    }
    assert(t2 =~= t1);
}

/// Tilting moves no cube rock, keeps the rocks of each lane as many as
/// they were, and leaves no round rock with an empty place before it in
/// its lane.
pub proof fn lemma_tilt_keeps(rows: Seq<Seq<Tile>>, w: int, axis: int, dir: int)
    requires
        platform_ok(rows, w),
        w >= 0,
        axis == 0 || axis == 1,
        dir == 1 || dir == -1,
    ensures
        forall|y: int, x: int| 0 <= y < rows.len() && 0 <= x < w ==>
            (#[trigger] tilted(rows, w, axis, dir)[y][x] == Tile::Cube <==> rows[y][x] == Tile::Cube),
        forall|i: int| 0 <= i < lane_count(rows.len() as int, w, axis) ==>
            (#[trigger] lane(tilted(rows, w, axis, dir), w, axis, dir, i)).to_multiset() == lane(rows, w, axis, dir, i).to_multiset(),
        forall|i: int| 0 <= i < lane_count(rows.len() as int, w, axis) ==>
            settled(#[trigger] lane(tilted(rows, w, axis, dir), w, axis, dir, i)),
{
    let h = rows.len() as int;
    assert forall|y: int, x: int| 0 <= y < rows.len() && 0 <= x < w implies
        (#[trigger] tilted(rows, w, axis, dir)[y][x] == Tile::Cube <==> rows[y][x] == Tile::Cube) by {
        lemma_place_slot(h, w, axis, dir, y, x);
        let l = lane(rows, w, axis, dir, lane_of(axis, y, x));
        lemma_rolled_cubes(l, l.len());
        let k = slot_of(h, w, axis, dir, y, x);
        assert(rolled(l, l.len())[k] == Tile::Cube <==> l[k] == Tile::Cube);
    }
    assert forall|i: int| 0 <= i < lane_count(rows.len() as int, w, axis) implies
        (#[trigger] lane(tilted(rows, w, axis, dir), w, axis, dir, i)).to_multiset() == lane(rows, w, axis, dir, i).to_multiset()
        && settled(lane(tilted(rows, w, axis, dir), w, axis, dir, i)) by {
        lemma_lane_tilted(rows, w, axis, dir, i);
        let l = lane(rows, w, axis, dir, i);
        lemma_rolled_multiset(l, l.len());
        lemma_rolled_settles(l, l.len());
        lemma_rolled_len(l, l.len());
    }
}

fn slot(h: usize, w: usize, axis: usize, dir: i32, i: usize, t: usize) -> (res: (usize, usize))
    requires
        axis < 2,
        dir == 1 || dir == -1,
        i < lane_count(h as int, w as int, axis as int),
        t < lane_len(h as int, w as int, axis as int),
    ensures
        res.0 == slot_y(h as int, w as int, axis as int, dir as int, i as int, t as int),
        res.1 == slot_x(h as int, w as int, axis as int, dir as int, i as int, t as int),
        res.0 < h,
        res.1 < w,
{
    if axis == 1 {
        (if dir == 1 { t } else { h - 1 - t }, i)
    } else {
        (i, if dir == 1 { t } else { w - 1 - t })
    }
}

/// Tilts the platform: every lane along `axis` (columns for 1, rows for 0),
/// read in direction `dir`, has its round rocks rolled toward its start
/// (see `tilted`).
pub fn tilt(map: &mut Platform, axis: usize, dir: i32)
    requires
        axis < 2,
        dir == 1 || dir == -1,
    ensures
        platform_width(*final(map)) == platform_width(*old(map)),
        platform_rows(*final(map)) == tilted(platform_rows(*old(map)), platform_width(*old(map)) as int, axis as int, dir as int),
        platform_ok(platform_rows(*final(map)), platform_width(*final(map)) as int),
        platform_ok(platform_rows(*old(map)), platform_width(*old(map)) as int),
        tilted(platform_rows(*final(map)), platform_width(*final(map)) as int, axis as int, dir as int) == platform_rows(*final(map)),
        forall|y: int, x: int| 0 <= y < platform_rows(*old(map)).len() && 0 <= x < platform_width(*old(map)) ==>
            (#[trigger] platform_rows(*final(map))[y][x] == Tile::Cube <==> platform_rows(*old(map))[y][x] == Tile::Cube),
        forall|i: int| 0 <= i < lane_count(platform_rows(*old(map)).len() as int, platform_width(*old(map)) as int, axis as int) ==>
            (#[trigger] lane(platform_rows(*final(map)), platform_width(*old(map)) as int, axis as int, dir as int, i)).to_multiset()
                == lane(platform_rows(*old(map)), platform_width(*old(map)) as int, axis as int, dir as int, i).to_multiset(),
        forall|i: int| 0 <= i < lane_count(platform_rows(*old(map)).len() as int, platform_width(*old(map)) as int, axis as int) ==>
            settled(#[trigger] lane(platform_rows(*final(map)), platform_width(*old(map)) as int, axis as int, dir as int, i)),
{
    let ghost orig = platform_rows(*map);
    let (h, w) = platform_dim(map);
    let ghost wi = w as int;
    let ghost hi = h as int;
    proof {
        lemma_tilt_twice(orig, wi, axis as int, dir as int);
        lemma_tilt_keeps(orig, wi, axis as int, dir as int);
    }
    let lanes = if axis == 1 { w } else { h };
    let len = if axis == 1 { h } else { w };
    assert(platform_rows(*map) =~= part_tilted(orig, wi, axis as int, dir as int, 0, 0)) by {
        assert forall|y: int| 0 <= y < hi implies platform_rows(*map)[y] =~= part_tilted(orig, wi, axis as int, dir as int, 0, 0)[y] by {}
    }
    let mut i: usize = 0;
    while i < lanes
        invariant
            axis < 2,
            dir == 1 || dir == -1,
            hi == orig.len(),
            h == hi,
            w == wi,
            forall|y: int| 0 <= y < hi ==> (#[trigger] orig[y]).len() == wi,
            lanes == lane_count(hi, wi, axis as int),
            len == lane_len(hi, wi, axis as int),
            i <= lanes,
            platform_width(*map) == w,
            platform_rows(*map) == part_tilted(orig, wi, axis as int, dir as int, i as int, 0),
        decreases lanes - i,
    {
        let ghost l = lane(orig, wi, axis as int, dir as int, i as int);
        let mut s: Vec<Tile> = Vec::new();
        let mut t: usize = 0;
        while t < len
            invariant
                axis < 2,
                dir == 1 || dir == -1,
                hi == orig.len(),
                h == hi,
                w == wi,
                lanes == lane_count(hi, wi, axis as int),
                len == lane_len(hi, wi, axis as int),
                i < lanes,
                t <= len,
                platform_width(*map) == w,
                platform_rows(*map).len() == hi,
                forall|y: int| 0 <= y < hi ==> (#[trigger] platform_rows(*map)[y]).len() == wi,
                platform_rows(*map) == part_tilted(orig, wi, axis as int, dir as int, i as int, 0),
                l == lane(orig, wi, axis as int, dir as int, i as int),
                s@ == l.take(t as int),
            decreases len - t,
        {
            let (y, x) = slot(h, w, axis, dir, i, t);
            s.push(platform_at(map, y, x));
            assert(s@ =~= l.take(t + 1));
            t += 1;
        }
        assert(s@ =~= l);
        roll(&mut s);
        proof {
            lemma_rolled_len(l, l.len());
        }
        let mut t: usize = 0;
        while t < len
            invariant
                axis < 2,
                dir == 1 || dir == -1,
                hi == orig.len(),
                h == hi,
                w == wi,
                forall|y: int| 0 <= y < hi ==> (#[trigger] orig[y]).len() == wi,
                lanes == lane_count(hi, wi, axis as int),
                len == lane_len(hi, wi, axis as int),
                i < lanes,
                t <= len,
                platform_width(*map) == w,
                l == lane(orig, wi, axis as int, dir as int, i as int),
                s@ == rolled(l, l.len()),
                s@.len() == len,
                platform_rows(*map) == part_tilted(orig, wi, axis as int, dir as int, i as int, t as int),
            decreases len - t,
        {
            let (y, x) = slot(h, w, axis, dir, i, t);
            let ghost before = platform_rows(*map);
            platform_set(map, y, x, s[t]);
            proof {
                let a = platform_rows(*map);
                let b = part_tilted(orig, wi, axis as int, dir as int, i as int, t + 1);
                assert forall|yy: int| 0 <= yy < hi implies a[yy] =~= b[yy] by {}
                assert(a =~= b);
            }
            t += 1;
        }
        proof {
            let a = part_tilted(orig, wi, axis as int, dir as int, i as int, len as int);
            let b = part_tilted(orig, wi, axis as int, dir as int, i + 1, 0);
            assert forall|yy: int| 0 <= yy < hi implies a[yy] =~= b[yy] by {}
            assert(a =~= b);
        }
        i += 1;
    }
    proof {
        let a = part_tilted(orig, wi, axis as int, dir as int, lanes as int, 0);
        let b = tilted(orig, wi, axis as int, dir as int);
        assert forall|yy: int| 0 <= yy < hi implies a[yy] =~= b[yy] by {}
        assert(a =~= b);
    }
}


/// One spin cycle: tilting north, then west, then south, then east.
pub open spec fn spin(rows: Seq<Seq<Tile>>, w: int) -> Seq<Seq<Tile>> {
    tilted(tilted(tilted(tilted(rows, w, 1, 1), w, 0, 1), w, 1, -1), w, 0, -1)
}

/// The platform after `k` spin cycles.
pub open spec fn spun(rows: Seq<Seq<Tile>>, w: int, k: nat) -> Seq<Seq<Tile>>
    decreases k,
{
    if k == 0 { rows } else { spin(spun(rows, w, (k - 1) as nat), w) }
}

/// Runs one spin cycle on the platform (see `spin`).
pub fn cycle(map: &mut Platform)
    ensures
        platform_width(*final(map)) == platform_width(*old(map)),
        platform_rows(*final(map)) == spin(platform_rows(*old(map)), platform_width(*old(map)) as int),
        platform_ok(platform_rows(*final(map)), platform_width(*final(map)) as int),
{
    tilt(map, 1, 1);
    tilt(map, 0, 1);
    tilt(map, 1, -1);
    tilt(map, 0, -1);
}

/// The number of round rocks in a row.
pub open spec fn rounds_in(r: Seq<Tile>) -> int
    decreases r.len(),
{
    if r.len() == 0 {
        0
    } else {
        rounds_in(r.drop_last()) + if r.last() == Tile::Round { 1int } else { 0int }
    }
}

/// The load of the first `n` rows: each round rock weighs as many as there
/// are rows from its own to the south edge.
pub open spec fn load_upto(rows: Seq<Seq<Tile>>, n: int) -> int
    decreases n,
{
    if n <= 0 {
        0
    } else {
        load_upto(rows, n - 1) + (rows.len() - (n - 1)) * rounds_in(rows[n - 1])
    }
}

/// The total load on the north support beams.
pub open spec fn load_of(rows: Seq<Seq<Tile>>) -> int {
    load_upto(rows, rows.len() as int)
}

/// Loads on a platform of this size fit in an `i64`.
pub open spec fn load_fits(p: Platform) -> bool {
    platform_rows(p).len() * platform_rows(p).len() * platform_width(p) <= i64::MAX
}

proof fn lemma_rounds_in(r: Seq<Tile>)
    ensures
        0 <= rounds_in(r) <= r.len(),
    decreases r.len(),
{
    if r.len() > 0 {
        lemma_rounds_in(r.drop_last());
    }
}

proof fn lemma_load_upto(rows: Seq<Seq<Tile>>, w: int, n: int)
    requires
        0 <= n <= rows.len(),
        w >= 0,
        forall|y: int| 0 <= y < rows.len() ==> (#[trigger] rows[y]).len() == w,
    ensures
        0 <= load_upto(rows, n) <= n * (rows.len() * w),
    decreases n,
{
    if n > 0 {
        lemma_load_upto(rows, w, n - 1);
        lemma_rounds_in(rows[n - 1]);
        let h = rows.len() as int;
        let c = rounds_in(rows[n - 1]);
        assert(0 <= (h - (n - 1)) * c <= h * w) by (nonlinear_arith)
            requires
                0 <= c <= w,
                1 <= n <= h,
        ;
        assert((n - 1) * (h * w) + h * w == n * (h * w)) by (nonlinear_arith);
    }
}

/// The load on the north support beams (see `load_of`).
pub fn load(m: &Platform) -> (res: i64)
    requires
        load_fits(*m),
    ensures
        res == load_of(platform_rows(*m)),
{
    let (h, w) = platform_dim(m);
    let ghost rows = platform_rows(*m);
    proof {
        lemma_load_upto(rows, w as int, h as int);
        assert(h * (h * w) == h * h * w) by (nonlinear_arith);
    }
    let mut ret: i64 = 0;
    let mut i: usize = 0;
    while i < h
        invariant
            h == rows.len(),
            w == platform_width(*m),
            rows == platform_rows(*m),
            forall|y: int| 0 <= y < h ==> (#[trigger] rows[y]).len() == w,
            load_fits(*m),
            load_upto(rows, h as int) <= i64::MAX,
            i <= h,
            ret == load_upto(rows, i as int),
        decreases h - i,
    {
        let mut n: usize = 0;
        let mut x: usize = 0;
        while x < w
            invariant
                i < h,
                h == rows.len(),
                w == platform_width(*m),
                rows == platform_rows(*m),
                rows[i as int].len() == w,
                x <= w,
                n == rounds_in(rows[i as int].take(x as int)),
            decreases w - x,
        {
            proof {
                lemma_rounds_in(rows[i as int].take(x as int));
                assert(rows[i as int].take(x + 1).drop_last() =~= rows[i as int].take(x as int));
            }
            if platform_at(m, i, x) == Tile::Round {
                n += 1;
            }
            x += 1;
        }
        proof {
            assert(rows[i as int].take(x as int) =~= rows[i as int]);
            lemma_load_upto(rows, w as int, i + 1);
            let hi = h as int;
            assert(load_upto(rows, i + 1) == ret + (hi - i) * n);
            assert(load_upto(rows, i + 1) <= load_upto(rows, hi)) by {
                lemma_load_mono(rows, w as int, i + 1, hi);
            }
            lemma_rounds_in(rows[i as int]);
            assert(n <= w);
            assert(0 <= (hi - i) * n) by (nonlinear_arith)
                requires
                    i < hi,
                    n >= 0,
            ;
        }
        if n > 0 {
            proof {
                let hi = h as int;
                assert(hi <= hi * hi * w) by (nonlinear_arith)
                    requires
                        hi >= 1,
                        w >= 1,
                ;
                assert(w <= hi * hi * w) by (nonlinear_arith)
                    requires
                        hi >= 1,
                        w >= 1,
                ;
                assert((hi - i) * n <= load_upto(rows, hi) - ret);
                assert((h - i) as int <= i64::MAX);
                assert(n as int <= i64::MAX);
            }
            let a: i64 = (h - i) as i64;
            let b: i64 = n as i64;
            proof {
                lemma_load_upto(rows, w as int, i as int);
                assert(a * b == (h as int - i) * n);
                assert(0 <= ret);
            }
            ret += a * b;
        } else {
            assert((h as int - i) * n == 0) by (nonlinear_arith)
                requires
                    n == 0,
            ;
        }
        i += 1;
    }
    ret
}

proof fn lemma_load_mono(rows: Seq<Seq<Tile>>, w: int, a: int, b: int)
    requires
        0 <= a <= b <= rows.len(),
        w >= 0,
        forall|y: int| 0 <= y < rows.len() ==> (#[trigger] rows[y]).len() == w,
    ensures
        load_upto(rows, a) <= load_upto(rows, b),
    decreases b,
{
    if a < b {
        lemma_load_mono(rows, w, a, b - 1);
        lemma_rounds_in(rows[b - 1]);
        let h = rows.len() as int;
        let c = rounds_in(rows[b - 1]);
        assert(0 <= (h - (b - 1)) * c) by (nonlinear_arith)
            requires
                c >= 0,
                b <= h,
        ;
    }
}

/// The load after tilting the platform north.
pub fn part1(input: &Platform) -> (res: i64)
    requires
        load_fits(*input),
    ensures
        res == load_of(tilted(platform_rows(*input), platform_width(*input) as int, 1, 1)),
{
    let mut m = platform_clone(input);
    tilt(&mut m, 1, 1);
    proof {
        assert(platform_rows(m).len() == platform_rows(*input).len());
    }
    load(&m)
}


/// A spin cycle depends on the platform alone: two moments with the same
/// platform are followed by the same platforms.
pub proof fn lemma_spun_shift(rows: Seq<Seq<Tile>>, w: int, a: nat, b: nat, t: nat)
    requires
        spun(rows, w, a) == spun(rows, w, b),
    ensures
        spun(rows, w, a + t) == spun(rows, w, b + t),
    decreases t,
{
    if t > 0 {
        lemma_spun_shift(rows, w, a, b, (t - 1) as nat);
        assert(spun(rows, w, a + t) == spin(spun(rows, w, (a + t - 1) as nat), w));
        assert(spun(rows, w, b + t) == spin(spun(rows, w, (b + t - 1) as nat), w));
    }
}

/// Once the platform after `a` cycles comes back after `p` more, the
/// platform after any `n >= a` cycles is the one after
/// `a + (n - a) % p` cycles.
pub proof fn lemma_spun_period(rows: Seq<Seq<Tile>>, w: int, a: nat, p: nat, n: nat)
    requires
        p >= 1,
        a <= n,
        spun(rows, w, a) == spun(rows, w, a + p),
    ensures
        spun(rows, w, n) == spun(rows, w, (a + (n - a) % (p as int)) as nat),
    decreases n,
{
    if n - a < p {
        vstd::arithmetic::div_mod::lemma_small_mod((n - a) as nat, p);
    } else {
        lemma_spun_period(rows, w, a, p, (n - p) as nat);
        vstd::arithmetic::div_mod::lemma_mod_add_multiples_vanish(n - a - p, p as int);
        assert(p + (n - a - p) == n - a);
        lemma_spun_shift(rows, w, a, a + p, (n - p - a) as nat);
    }
}

proof fn lemma_spun_len(rows: Seq<Seq<Tile>>, w: int, k: nat)
    ensures
        spun(rows, w, k).len() == rows.len(),
    decreases k,
{
    if k > 0 {
        lemma_spun_len(rows, w, (k - 1) as nat);
    }
}

/// The load after a billion spin cycles, found by spinning until the
/// platform repeats itself and then skipping the whole periods; where no
/// platform repeats within the billion cycles, all of them are run.
pub fn part2(input: &Platform) -> (res: i64)
    requires
        load_fits(*input),
    ensures
        res == load_of(spun(platform_rows(*input), platform_width(*input) as int, 1000000000)),
{
    let ghost rows = platform_rows(*input);
    let ghost w = platform_width(*input) as int;
    let mut m = platform_clone(input);
    let mut hist: Vec<Platform> = Vec::new();
    let mut found = false;
    let mut idx: usize = 0;
    while !found && hist.len() < 1000000000
        invariant
            hist@.len() <= 1000000000,
            platform_rows(m) == spun(rows, w, hist@.len() as nat),
            platform_width(m) == w,
            forall|j: int| 0 <= j < hist@.len() ==> platform_rows(#[trigger] hist@[j]) == spun(rows, w, j as nat)
                && platform_width(hist@[j]) == w,
            found ==> idx < hist@.len() && spun(rows, w, idx as nat) == spun(rows, w, hist@.len() as nat),
        decreases 1000000000 - hist@.len(), if found { 0int } else { 1int },
    {
        let ghost n = hist@.len();
        hist.push(platform_clone(&m));
        cycle(&mut m);
        assert(platform_rows(m) == spun(rows, w, (n + 1) as nat));
        let mut j: usize = 0;
        while j < hist.len() && !found
            invariant
                hist@.len() == n + 1,
                j <= hist@.len(),
                forall|q: int| 0 <= q < hist@.len() ==> platform_rows(#[trigger] hist@[q]) == spun(rows, w, q as nat)
                    && platform_width(hist@[q]) == w,
                platform_rows(m) == spun(rows, w, (n + 1) as nat),
                platform_width(m) == w,
                found ==> idx < hist@.len() && spun(rows, w, idx as nat) == spun(rows, w, (n + 1) as nat),
            decreases hist@.len() - j, if found { 0int } else { 1int },
        {
            if platform_eq(&hist[j], &m) {
                idx = j;
                found = true;
            } else {
                j += 1;
            }
        }
    }
    if !found {
        proof {
            lemma_spun_len(rows, w, 1000000000);
        }
        return load(&m);
    }
    let periodic_from = idx;
    let period = hist.len() - idx;
    let n: usize = 1000000000;
    let at = periodic_from + (n - periodic_from) % period;
    proof {
        lemma_spun_len(rows, w, at as nat);
        lemma_spun_period(rows, w, idx as nat, period as nat, 1000000000);
        assert(idx + period == hist@.len());
    }
    load(&hist[at])
}

} // verus!
