//! Clumsy crucible: the least heat loss on a way through the city, where the
//! crucible may not go straight for too long or turn too soon.
use vstd::prelude::*;
use ndarray::{Array2, ShapeError};
use crate::arrays::{flatten, reshape, MapError};
use crate::grid::{lemma_rows_from_alpha, parse_grid, spec_grid};
use crate::text::{rows_view, ParseError};

verus! {

/// The heat loss of every city block, held in an `ndarray` array.
#[verifier::external_body]
pub struct HeatMap {
    blocks: Array2<u32>,
}

/// The heat losses of a map, row by row.
pub uninterp spec fn heat_rows(m: HeatMap) -> Seq<Seq<u32>>;

/// The number of blocks in each row of a map.
pub uninterp spec fn heat_width(m: HeatMap) -> nat;

/// `Array2::from_shape_vec` with the shape `(h, w)`: it succeeds exactly
/// when `flat` holds `h * w` items and that count fits in an `isize`, and the
/// array then holds `flat` row after row.
#[verifier::external_body]
fn heat_from_shape_vec(h: usize, w: usize, flat: Vec<u32>) -> (res: Result<HeatMap, ShapeError>)
    requires
        h >= 1,
        w >= 1,
    ensures
        res is Ok <==> (h * w == flat@.len() && h * w <= isize::MAX),
        res matches Ok(m) ==> heat_width(m) == w && heat_rows(m) == reshape(flat@, h as int, w as int),
{
    match Array2::from_shape_vec((h, w), flat) {
        Ok(blocks) => Ok(HeatMap { blocks }),
        Err(e) => Err(e),
    }
}

/// `ArrayBase::dim` on a heat map: its number of rows and of blocks per row.
#[verifier::external_body]
fn heat_dim(m: &HeatMap) -> (res: (usize, usize))
    ensures
        res.0 == heat_rows(*m).len() && res.1 == heat_width(*m) && forall|y: int|
            0 <= y < res.0 ==> (#[trigger] heat_rows(*m)[y]).len() == res.1,
{
    m.blocks.dim()
}

/// Indexing a heat map by `(row, column)`.
#[verifier::external_body]
fn heat_at(m: &HeatMap, y: usize, x: usize) -> (res: u32)
    requires
        y < heat_rows(*m).len(),
        x < heat_width(*m),
    ensures
        res == heat_rows(*m)[y as int][x as int],
{
    m.blocks[(y, x)]
}

pub open spec fn digit_alpha() -> Seq<u8> {
    seq![48u8, 49u8, 50u8, 51u8, 52u8, 53u8, 54u8, 55u8, 56u8, 57u8]
}

proof fn lemma_digit_alpha(c: u8)
    requires
        digit_alpha().contains(c),
    ensures
        48 <= c <= 57,
{
    let i = choose|i: int| 0 <= i < digit_alpha().len() && digit_alpha()[i] == c;
    assert(0 <= i < 10);
}

/// The heat losses that the digits of `rows` stand for, row after row.
pub open spec fn loss_values(rows: Seq<Seq<u8>>) -> Seq<u32> {
    flatten(rows).map_values(|c: u8| (c - 48) as u32)
}

/// Reads the map: lines of digits, the first of which gives the width, all
/// of them read row after row into an array of that width.
pub fn input_gen(input: &[u8]) -> (res: Result<HeatMap, MapError>)
    ensures
        match spec_grid(input@, digit_alpha(), true) {
            None => res == Err::<HeatMap, MapError>(MapError::Syntax),
            Some(rows) => {
                let h = rows.len() as int;
                let w = rows[0].len() as int;
                let flat = loss_values(rows);
                if h * w == flat.len() && h * w <= isize::MAX {
                    res matches Ok(m) && heat_width(m) == w && heat_rows(m) == reshape(flat, h, w)
                } else {
                    res == Err::<HeatMap, MapError>(MapError::Shape)
                }
            },
        },
{
    let alpha: Vec<u8> = vec![48u8, 49u8, 50u8, 51u8, 52u8, 53u8, 54u8, 55u8, 56u8, 57u8];
    assert(alpha@ =~= digit_alpha());
    let rows = match parse_grid(input, alpha.as_slice(), true) {
        Ok(rows) => rows,
        Err(_) => return Err(MapError::Syntax),
    };
    let ghost rv = rows_view(rows@);
    proof {
        lemma_rows_from_alpha(input@, 0, digit_alpha());
    }
    let mut flat: Vec<u32> = Vec::new();
    let mut y: usize = 0;
    while y < rows.len()
        invariant
            y <= rows@.len(),
            rv == rows_view(rows@),
            flat@ == loss_values(rv.take(y as int)),
            forall|r: int, k: int| 0 <= r < rv.len() && 0 <= k < rv[r].len() ==> digit_alpha().contains(#[trigger] rv[r][k]),
        decreases rows@.len() - y,
    {
        let ghost before = flat@;
        let mut x: usize = 0;
        while x < rows[y].len()
            invariant
                y < rows@.len(),
                x <= rows@[y as int]@.len(),
                rv == rows_view(rows@),
                forall|r: int, k: int| 0 <= r < rv.len() && 0 <= k < rv[r].len() ==> digit_alpha().contains(#[trigger] rv[r][k]),
                flat@ == before + rows@[y as int]@.take(x as int).map_values(|c: u8| (c - 48) as u32),
            decreases rows@[y as int]@.len() - x,
        {
            let c = rows[y][x];
            proof {
                assert(rv[y as int] == rows@[y as int]@);
                assert(digit_alpha().contains(rv[y as int][x as int]));
                lemma_digit_alpha(c);
            }
            flat.push((c - 48) as u32);
            assert(rows@[y as int]@.take(x + 1).map_values(|c: u8| (c - 48) as u32)
                =~= rows@[y as int]@.take(x as int).map_values(|c: u8| (c - 48) as u32).push((c - 48) as u32));
            x += 1;
        }
        proof {
            assert(rows@[y as int]@.take(x as int) =~= rows@[y as int]@);
            assert(rv.take(y + 1).drop_last() =~= rv.take(y as int));
            assert(loss_values(rv.take(y + 1)) =~= loss_values(rv.take(y as int)) + rv[y as int].map_values(|c: u8| (c - 48) as u32));
        }
        y += 1;
    }
    assert(rv.take(rows@.len() as int) =~= rv);
    let h = rows.len();
    let w = rows[0].len();
    assert(rv[0] == rows@[0]@);
    assert(rv[0].len() > 0);
    match heat_from_shape_vec(h, w, flat) {
        Ok(m) => Ok(m),
        Err(_) => Err(MapError::Shape),
    }
}


/// A direction in which the crucible moves.
#[derive(Debug, Clone, Copy, PartialEq, Eq, Hash, Structural)]
pub enum Dir {
    Left,
    Right,
    Up,
    Down,
}

/// The direction back the way one came.
pub open spec fn opposite(d: Dir) -> Dir {
    match d {
        Dir::Left => Dir::Right,
        Dir::Right => Dir::Left,
        Dir::Up => Dir::Down,
        Dir::Down => Dir::Up,
    }
}

/// The row one block from row `y` in direction `d`.
pub open spec fn step_y(y: int, d: Dir) -> int {
    match d {
        Dir::Up => y - 1,
        Dir::Down => y + 1,
        _ => y,
    }
}

/// The column one block from column `x` in direction `d`.
pub open spec fn step_x(x: int, d: Dir) -> int {
    match d {
        Dir::Left => x - 1,
        Dir::Right => x + 1,
        _ => x,
    }
}

/// Whether the crucible at `(y, x)` on a map of `h` rows of `w` blocks, which
/// has moved `count` blocks in a row in direction `dir`, may move one block
/// in direction `nd`: it stays on the map, goes straight only while `count`
/// is below `hi`, turns only once `count` has reached `lo` (or before it has
/// moved at all), and never turns back.
pub open spec fn may_move(h: int, w: int, y: int, x: int, dir: Dir, count: int, lo: int, hi: int, nd: Dir) -> bool {
    let straight_allowed = count < hi;
    let turn_allowed = count >= lo || count == 0;
    &&& match nd {
        Dir::Left => x > 0,
        Dir::Right => x < w - 1,
        Dir::Up => y > 0,
        Dir::Down => y < h - 1,
    }
    &&& (straight_allowed || dir != nd)
    &&& (turn_allowed || dir == nd)
    &&& dir != opposite(nd)
}

/// The moves open to the crucible, as target row, target column and
/// direction, in the order left, right, up, down.
pub open spec fn moves(h: int, w: int, y: int, x: int, dir: Dir, count: int, lo: int, hi: int) -> Seq<(int, int, Dir)> {
    let one = |nd: Dir|
        if may_move(h, w, y, x, dir, count, lo, hi, nd) {
            seq![(step_y(y, nd), step_x(x, nd), nd)]
        } else {
            Seq::<(int, int, Dir)>::empty()
        };
    one(Dir::Left) + one(Dir::Right) + one(Dir::Up) + one(Dir::Down)
}

fn may_move_exec(h: usize, w: usize, y: usize, x: usize, dir: Dir, count: usize, lo: usize, hi: usize, nd: Dir) -> (res: bool)
    requires
        y < h,
        x < w,
    ensures
        res == may_move(h as int, w as int, y as int, x as int, dir, count as int, lo as int, hi as int, nd),
{
    let straight_allowed = count < hi;
    let turn_allowed = count >= lo || count == 0;
    let inside = match nd {
        Dir::Left => x > 0,
        Dir::Right => x < w - 1,
        Dir::Up => y > 0,
        Dir::Down => y < h - 1,
    };
    let back = match nd {
        Dir::Left => dir == Dir::Right,
        Dir::Right => dir == Dir::Left,
        Dir::Up => dir == Dir::Down,
        Dir::Down => dir == Dir::Up,
    };
    inside && (straight_allowed || dir != nd) && (turn_allowed || dir == nd) && !back
}

/// The moves open to the crucible at `pos` (see `moves`).
pub fn neighbours(
    map: &HeatMap,
    pos: (usize, usize),
    dir: Dir,
    dir_count: usize,
    min_straight: usize,
    max_straight: usize,
) -> (res: Vec<((usize, usize), Dir)>)
    requires
        pos.0 < heat_rows(*map).len(),
        pos.1 < heat_width(*map),
    ensures
        res@.len() == moves(heat_rows(*map).len() as int, heat_width(*map) as int, pos.0 as int, pos.1 as int, dir,
            dir_count as int, min_straight as int, max_straight as int).len(),
        forall|i: int| 0 <= i < res@.len() ==> ((#[trigger] res@[i]).0.0 as int, res@[i].0.1 as int, res@[i].1)
            == moves(heat_rows(*map).len() as int, heat_width(*map) as int, pos.0 as int, pos.1 as int, dir,
            dir_count as int, min_straight as int, max_straight as int)[i],
{
    let (h, w) = heat_dim(map);
    let (y, x) = pos;
    let ghost view = |v: Seq<((usize, usize), Dir)>| v.map_values(|e: ((usize, usize), Dir)| (e.0.0 as int, e.0.1 as int, e.1));
    let ghost one = |nd: Dir|
        if may_move(h as int, w as int, y as int, x as int, dir, dir_count as int, min_straight as int, max_straight as int, nd) {
            seq![(step_y(y as int, nd), step_x(x as int, nd), nd)]
        } else {
            Seq::<(int, int, Dir)>::empty()
        };
    let mut ret: Vec<((usize, usize), Dir)> = Vec::new();
    if may_move_exec(h, w, y, x, dir, dir_count, min_straight, max_straight, Dir::Left) {
        ret.push(((y, x - 1), Dir::Left));
    }
    assert(view(ret@) =~= one(Dir::Left));
    if may_move_exec(h, w, y, x, dir, dir_count, min_straight, max_straight, Dir::Right) {
        ret.push(((y, x + 1), Dir::Right));
    }
    assert(view(ret@) =~= one(Dir::Left) + one(Dir::Right));
    if may_move_exec(h, w, y, x, dir, dir_count, min_straight, max_straight, Dir::Up) {
        ret.push(((y - 1, x), Dir::Up));
    }
    assert(view(ret@) =~= one(Dir::Left) + one(Dir::Right) + one(Dir::Up));
    if may_move_exec(h, w, y, x, dir, dir_count, min_straight, max_straight, Dir::Down) {
        ret.push(((y + 1, x), Dir::Down));
    }
    assert(view(ret@) =~= one(Dir::Left) + one(Dir::Right) + one(Dir::Up) + one(Dir::Down));
    assert forall|i: int| 0 <= i < ret@.len() implies ((#[trigger] ret@[i]).0.0 as int, ret@[i].0.1 as int, ret@[i].1)
        == view(ret@)[i] by {}
    ret
}


/// The value that stands for "no way found".
pub open spec fn no_way() -> int {
    u32::MAX as int
}

pub open spec fn min_of(a: int, b: int) -> int {
    if b < a { b } else { a }
}

/// The direction with index `i` (left, right, up, down).
pub open spec fn dir_at(i: int) -> Dir {
    if i == 0 {
        Dir::Left
    } else if i == 1 {
        Dir::Right
    } else if i == 2 {
        Dir::Up
    } else {
        Dir::Down
    }
}

/// A question put to the search: the map, the blocks where the crucible
/// starts and where it must end, and the fewest (`lo`) and most (`hi`)
/// blocks it may move in a row. A state of the crucible is its row, column,
/// direction (by index, see `dir_at`) and the blocks it has moved in a row.
pub struct Crucible {
    pub rows: Seq<Seq<u32>>,
    pub h: int,
    pub w: int,
    pub from: (int, int),
    pub to: (int, int),
    pub lo: int,
    pub hi: int,
}

pub open spec fn crucible(map: HeatMap, from: (usize, usize), to: (usize, usize), lo: usize, hi: usize) -> Crucible {
    Crucible {
        rows: heat_rows(map),
        h: heat_rows(map).len() as int,
        w: heat_width(map) as int,
        from: (from.0 as int, from.1 as int),
        to: (to.0 as int, to.1 as int),
        lo: lo as int,
        hi: hi as int,
    }
}

/// A state on the map, facing one of the four directions, having moved at
/// most `hi + 1` blocks in a row (a count above `hi` is reached only by a
/// turn when `hi` is 0).
pub open spec fn valid_state(cr: Crucible, y: int, x: int, d: int, c: int) -> bool {
    0 <= y < cr.h && 0 <= x < cr.w && 0 <= d < 4 && 0 <= c <= cr.hi + 1
}

/// The crucible may go in one move from state `(py, px, pd, pc)` to state
/// `(y, x, d, c)`: the first is a state on the map and not at the goal
/// (where the journey ends), the move is open to it, and `c` counts the
/// blocks moved in a row.
pub open spec fn edge(cr: Crucible, py: int, px: int, pd: Dir, pc: int, y: int, x: int, d: Dir, c: int) -> bool {
    &&& 0 <= py < cr.h && 0 <= px < cr.w && 0 <= pc <= cr.hi + 1
    &&& !(py == cr.to.0 && px == cr.to.1)
    &&& may_move(cr.h, cr.w, py, px, pd, pc, cr.lo, cr.hi, d)
    &&& y == step_y(py, d) && x == step_x(px, d)
    &&& c == if d == pd { pc + 1 } else { 1 }
}

/// The least heat loss with which the crucible can reach state
/// `(y, x, d, c)` in at most `k` moves from its start (at `from`, facing
/// right, not yet moved), or `no_way()`.
pub open spec fn least_loss(cr: Crucible, k: nat, y: int, x: int, d: int, c: int) -> int
    decreases k, 0nat, 0nat,
{
    if k == 0 {
        if y == cr.from.0 && x == cr.from.1 && d == 1 && c == 0 {
            0
        } else {
            no_way()
        }
    } else if !valid_state(cr, y, x, d, c) {
        no_way()
    } else {
        min_of(least_loss(cr, (k - 1) as nat, y, x, d, c), least_via(cr, (k - 1) as nat, y, x, d, c, 4))
    }
}

/// The least heat loss of reaching `(y, x, d, c)` by a last move from a
/// state whose direction has an index below `j`, the states before it
/// reached in at most `k` moves.
pub open spec fn least_via(cr: Crucible, k: nat, y: int, x: int, d: int, c: int, j: nat) -> int
    decreases k, 2nat, j,
{
    if j == 0 {
        no_way()
    } else {
        min_of(
            least_via(cr, k, y, x, d, c, (j - 1) as nat),
            least_via_dir(cr, k, y, x, d, c, j - 1, (cr.hi + 2) as nat),
        )
    }
}

/// As `least_via`, from states of direction `pd` that have moved fewer
/// than `j` blocks in a row.
pub open spec fn least_via_dir(cr: Crucible, k: nat, y: int, x: int, d: int, c: int, pd: int, j: nat) -> int
    decreases k, 1nat, j,
{
    if j == 0 {
        no_way()
    } else {
        let pc = j - 1;
        let py = step_y(y, opposite(dir_at(d)));
        let px = step_x(x, opposite(dir_at(d)));
        let before = least_loss(cr, k, py, px, pd, pc);
        let offer = if edge(cr, py, px, dir_at(pd), pc, y, x, dir_at(d), c) && before < no_way() {
            before + cr.rows[y][x]
        } else {
            no_way()
        };
        min_of(least_via_dir(cr, k, y, x, d, c, pd, (j - 1) as nat), offer)
    }
}

/// The least heat loss, in at most `k` moves, of reaching the goal in a
/// direction of index `d`, having moved at least `lo` and fewer than `j`
/// blocks in a row.
pub open spec fn goal_dir(cr: Crucible, k: nat, d: int, j: nat) -> int
    decreases j,
{
    if j == 0 {
        no_way()
    } else {
        let c = j - 1;
        let here = if c >= cr.lo { least_loss(cr, k, cr.to.0, cr.to.1, d, c) } else { no_way() };
        min_of(goal_dir(cr, k, d, (j - 1) as nat), here)
    }
}

/// As `goal_dir`, over the directions with an index below `j`.
pub open spec fn goal(cr: Crucible, k: nat, j: nat) -> int
    decreases j,
{
    if j == 0 {
        no_way()
    } else {
        min_of(goal(cr, k, (j - 1) as nat), goal_dir(cr, k, j - 1, (cr.hi + 2) as nat))
    }
}

/// The number of states of the crucible.
pub open spec fn state_count(cr: Crucible) -> int {
    cr.h * cr.w * 4 * (cr.hi + 2)
}

/// The least heat loss with which the crucible can reach the goal having
/// moved at least `lo` blocks in a row, in any number of moves
/// (`no_way()` if it cannot): the least of `goal` over all rounds.
pub open spec fn least_heat_loss(cr: Crucible) -> int {
    choose|v: int| #[trigger] least_of_goals(cr, v)
}

/// `v` is the least of `goal` over all rounds.
pub open spec fn least_of_goals(cr: Crucible, v: int) -> bool {
    &&& exists|k: nat| #[trigger] goal(cr, k, 4) == v
    &&& forall|k: nat| #[trigger] goal(cr, k, 4) >= v
}

/// The greatest heat loss in a row (0 for none).
pub open spec fn row_max(r: Seq<u32>) -> int
    decreases r.len(),
{
    if r.len() == 0 {
        0
    } else {
        let m = row_max(r.drop_last());
        if r.last() > m { r.last() as int } else { m }
    }
}

/// The greatest heat loss on a map (0 for none).
pub open spec fn rows_max(rows: Seq<Seq<u32>>) -> int
    decreases rows.len(),
{
    if rows.len() == 0 {
        0
    } else {
        let m = rows_max(rows.drop_last());
        let r = row_max(rows.last());
        if r > m { r } else { m }
    }
}

/// The search's sums of heat losses fit in a `u32` below `u32::MAX`.
pub open spec fn crucible_fits(cr: Crucible) -> bool {
    &&& state_count(cr) <= u32::MAX
    &&& state_count(cr) * rows_max(cr.rows) < u32::MAX
}

proof fn lemma_row_max(r: Seq<u32>)
    ensures
        row_max(r) >= 0,
        forall|x: int| 0 <= x < r.len() ==> r[x] <= row_max(r),
    decreases r.len(),
{
    if r.len() > 0 {
        lemma_row_max(r.drop_last());
        assert forall|x: int| 0 <= x < r.len() implies r[x] <= row_max(r) by {
            if x < r.len() - 1 {
                assert(r[x] == r.drop_last()[x]);
            }
        }
    }
}

proof fn lemma_rows_max(rows: Seq<Seq<u32>>)
    ensures
        rows_max(rows) >= 0,
        forall|y: int, x: int| 0 <= y < rows.len() && 0 <= x < rows[y].len() ==> rows[y][x] <= rows_max(rows),
    decreases rows.len(),
{
    if rows.len() > 0 {
        lemma_rows_max(rows.drop_last());
        lemma_row_max(rows.last());
        assert forall|y: int, x: int| 0 <= y < rows.len() && 0 <= x < rows[y].len() implies rows[y][x] <= rows_max(rows) by {
            if y < rows.len() - 1 {
                assert(rows[y] == rows.drop_last()[y]);
            }
        }
    }
}


proof fn lemma_via_dir_bound(cr: Crucible, k: nat, m: int, y: int, x: int, d: int, c: int, pd: int, j: nat)
    requires
        m >= 0,
        forall|y: int, x: int| 0 <= y < cr.h && 0 <= x < cr.w ==> cr.rows[y][x] <= m,
        forall|y: int, x: int, d: int, c: int| #[trigger] least_loss(cr, k, y, x, d, c) <= no_way()
            && (least_loss(cr, k, y, x, d, c) < no_way() ==> least_loss(cr, k, y, x, d, c) <= k * m),
    ensures
        least_via_dir(cr, k, y, x, d, c, pd, j) <= no_way(),
        least_via_dir(cr, k, y, x, d, c, pd, j) < no_way() ==> least_via_dir(cr, k, y, x, d, c, pd, j) <= (k + 1) * m,
    decreases j,
{
    if j > 0 {
        lemma_via_dir_bound(cr, k, m, y, x, d, c, pd, (j - 1) as nat);
        let pc = j - 1;
        let py = step_y(y, opposite(dir_at(d)));
        let px = step_x(x, opposite(dir_at(d)));
        let before = least_loss(cr, k, py, px, pd, pc);
        assert((k + 1) * m == k * m + m) by (nonlinear_arith);
        if edge(cr, py, px, dir_at(pd), pc, y, x, dir_at(d), c) && before < no_way() {
            assert(0 <= y < cr.h && 0 <= x < cr.w);
            assert(cr.rows[y][x] <= m);
        }
    }
}

proof fn lemma_via_bound(cr: Crucible, k: nat, m: int, y: int, x: int, d: int, c: int, j: nat)
    requires
        m >= 0,
        forall|y: int, x: int| 0 <= y < cr.h && 0 <= x < cr.w ==> cr.rows[y][x] <= m,
        forall|y: int, x: int, d: int, c: int| #[trigger] least_loss(cr, k, y, x, d, c) <= no_way()
            && (least_loss(cr, k, y, x, d, c) < no_way() ==> least_loss(cr, k, y, x, d, c) <= k * m),
    ensures
        least_via(cr, k, y, x, d, c, j) <= no_way(),
        least_via(cr, k, y, x, d, c, j) < no_way() ==> least_via(cr, k, y, x, d, c, j) <= (k + 1) * m,
    decreases j,
{
    if j > 0 {
        lemma_via_bound(cr, k, m, y, x, d, c, (j - 1) as nat);
        lemma_via_dir_bound(cr, k, m, y, x, d, c, j - 1, (cr.hi + 2) as nat);
    }
}

/// A state reached in at most `k` moves costs at most `k` times the
/// greatest heat loss `m` of a block.
proof fn lemma_loss_bound(cr: Crucible, k: nat, m: int)
    requires
        m >= 0,
        forall|y: int, x: int| 0 <= y < cr.h && 0 <= x < cr.w ==> cr.rows[y][x] <= m,
    ensures
        forall|y: int, x: int, d: int, c: int| #[trigger] least_loss(cr, k, y, x, d, c) <= no_way()
            && (least_loss(cr, k, y, x, d, c) < no_way() ==> least_loss(cr, k, y, x, d, c) <= k * m),
    decreases k,
{
    if k > 0 {
        lemma_loss_bound(cr, (k - 1) as nat, m);
        assert forall|y: int, x: int, d: int, c: int| #[trigger] least_loss(cr, k, y, x, d, c) <= no_way()
            && (least_loss(cr, k, y, x, d, c) < no_way() ==> least_loss(cr, k, y, x, d, c) <= k * m) by {
            lemma_via_bound(cr, (k - 1) as nat, m, y, x, d, c, 4);
            let prev = least_loss(cr, (k - 1) as nat, y, x, d, c);
            assert(prev <= no_way() && (prev < no_way() ==> prev <= ((k - 1) as nat) * m));
            assert(valid_state(cr, y, x, d, c) ==> least_loss(cr, k, y, x, d, c) == min_of(prev, least_via(cr, (k - 1) as nat, y, x, d, c, 4)));
            assert(((k - 1) as nat) * m <= k * m) by (nonlinear_arith)
                requires
                    k >= 1,
                    m >= 0,
            ;
        }
    }
}

/// The place of state `(y, x, d, c)` in the table of settled states.
pub open spec fn slot(cr: Crucible, y: int, x: int, d: int, c: int) -> int {
    ((y * cr.w + x) * 4 + d) * (cr.hi + 2) + c
}

proof fn lemma_radix(a1: int, c1: int, a2: int, c2: int, n: int)
    requires
        n > 0,
        0 <= c1 < n,
        0 <= c2 < n,
        a1 * n + c1 == a2 * n + c2,
    ensures
        a1 == a2,
        c1 == c2,
{
    if a1 > a2 {
        assert((a1 - a2) * n >= n) by (nonlinear_arith)
            requires
                a1 - a2 >= 1,
                n > 0,
        ;
        assert((a1 - a2) * n == a1 * n - a2 * n) by (nonlinear_arith);
    } else if a1 < a2 {
        assert((a2 - a1) * n >= n) by (nonlinear_arith)
            requires
                a2 - a1 >= 1,
                n > 0,
        ;
        assert((a2 - a1) * n == a2 * n - a1 * n) by (nonlinear_arith);
    }
}

proof fn lemma_slot(cr: Crucible, y: int, x: int, d: int, c: int)
    requires
        valid_state(cr, y, x, d, c),
        cr.hi >= 0,
    ensures
        0 <= y * cr.w + x < cr.h * cr.w,
        0 <= (y * cr.w + x) * 4 + d < cr.h * cr.w * 4,
        0 <= slot(cr, y, x, d, c) < state_count(cr),
{
    let hh = cr.hi + 2;
    assert(0 <= y * cr.w) by (nonlinear_arith)
        requires
            y >= 0,
            cr.w >= 0,
    ;
    assert(y * cr.w + x < cr.h * cr.w) by (nonlinear_arith)
        requires
            0 <= y < cr.h,
            0 <= x < cr.w,
    ;
    let a = y * cr.w + x;
    let b = a * 4 + d;
    assert(b < cr.h * cr.w * 4) by (nonlinear_arith)
        requires
            0 <= a < cr.h * cr.w,
            0 <= d < 4,
            b == a * 4 + d,
    ;
    assert(0 <= b * hh + c < cr.h * cr.w * 4 * hh) by (nonlinear_arith)
        requires
            0 <= b < cr.h * cr.w * 4,
            0 <= c < hh,
    ;
}

proof fn lemma_slot_inj(cr: Crucible, y1: int, x1: int, d1: int, c1: int, y2: int, x2: int, d2: int, c2: int)
    requires
        valid_state(cr, y1, x1, d1, c1),
        valid_state(cr, y2, x2, d2, c2),
        cr.hi >= 0,
        slot(cr, y1, x1, d1, c1) == slot(cr, y2, x2, d2, c2),
    ensures
        y1 == y2 && x1 == x2 && d1 == d2 && c1 == c2,
{
    lemma_radix((y1 * cr.w + x1) * 4 + d1, c1, (y2 * cr.w + x2) * 4 + d2, c2, cr.hi + 2);
    lemma_radix(y1 * cr.w + x1, d1, y2 * cr.w + x2, d2, 4);
    lemma_radix(y1, x1, y2, x2, cr.w);
}

/// The number of states not yet settled.
pub open spec fn falses(v: Seq<bool>) -> int
    decreases v.len(),
{
    if v.len() == 0 { 0 } else { falses(v.drop_last()) + if v.last() { 0int } else { 1int } }
}

proof fn lemma_falses(v: Seq<bool>, i: int)
    requires
        0 <= i < v.len(),
        !v[i],
    ensures
        falses(v.update(i, true)) == falses(v) - 1,
        falses(v) >= 1,
    decreases v.len(),
{
    lemma_falses_nonneg(v.drop_last());
    if i < v.len() - 1 {
        lemma_falses(v.drop_last(), i);
        assert(v.update(i, true).drop_last() =~= v.drop_last().update(i, true));
    } else {
        assert(v.update(i, true).drop_last() =~= v.drop_last());
    }
}

proof fn lemma_falses_nonneg(v: Seq<bool>)
    ensures
        0 <= falses(v) <= v.len(),
    decreases v.len(),
{
    if v.len() > 0 {
        lemma_falses_nonneg(v.drop_last());
    }
}

/// The way back from `(y, x)` against direction `d` leads to the block the
/// move in direction `d` came from.
proof fn lemma_step_back(py: int, px: int, d: Dir)
    ensures
        step_y(step_y(py, d), opposite(d)) == py,
        step_x(step_x(px, d), opposite(d)) == px,
{
}

proof fn lemma_via_dir_le(cr: Crucible, k: nat, y: int, x: int, d: int, c: int, pd: int, pc: int, j: nat)
    requires
        0 <= pc < j,
        edge(cr, step_y(y, opposite(dir_at(d))), step_x(x, opposite(dir_at(d))), dir_at(pd), pc, y, x, dir_at(d), c),
        least_loss(cr, k, step_y(y, opposite(dir_at(d))), step_x(x, opposite(dir_at(d))), pd, pc) < no_way(),
    ensures
        least_via_dir(cr, k, y, x, d, c, pd, j) <= least_loss(cr, k, step_y(y, opposite(dir_at(d))), step_x(x, opposite(dir_at(d))), pd, pc) + cr.rows[y][x],
    decreases j,
{
    if pc < j - 1 {
        lemma_via_dir_le(cr, k, y, x, d, c, pd, pc, (j - 1) as nat);
    }
}

proof fn lemma_via_le(cr: Crucible, k: nat, y: int, x: int, d: int, c: int, pd: int, pc: int, j: nat)
    requires
        0 <= pd < j,
        0 <= pc < cr.hi + 2,
        edge(cr, step_y(y, opposite(dir_at(d))), step_x(x, opposite(dir_at(d))), dir_at(pd), pc, y, x, dir_at(d), c),
        least_loss(cr, k, step_y(y, opposite(dir_at(d))), step_x(x, opposite(dir_at(d))), pd, pc) < no_way(),
    ensures
        least_via(cr, k, y, x, d, c, j) <= least_loss(cr, k, step_y(y, opposite(dir_at(d))), step_x(x, opposite(dir_at(d))), pd, pc) + cr.rows[y][x],
    decreases j,
{
    if pd < j - 1 {
        lemma_via_le(cr, k, y, x, d, c, pd, pc, (j - 1) as nat);
    } else {
        lemma_via_dir_le(cr, k, y, x, d, c, pd, pc, (cr.hi + 2) as nat);
    }
}

/// A move to a state costs at most the cost of the state it came from and
/// the heat loss of its block, one round later.
proof fn lemma_relax(cr: Crucible, k: nat, py: int, px: int, pd: int, pc: int, y: int, x: int, d: int, c: int)
    requires
        0 <= pd < 4,
        0 <= d < 4,
        edge(cr, py, px, dir_at(pd), pc, y, x, dir_at(d), c),
        least_loss(cr, k, py, px, pd, pc) < no_way(),
        valid_state(cr, y, x, d, c),
    ensures
        least_loss(cr, k + 1, y, x, d, c) <= least_loss(cr, k, py, px, pd, pc) + cr.rows[y][x],
{
    lemma_step_back(py, px, dir_at(d));
    lemma_via_le(cr, k, y, x, d, c, pd, pc, 4);
}

proof fn lemma_via_dir_pick(cr: Crucible, k: nat, y: int, x: int, d: int, c: int, pd: int, j: nat) -> (pc: int)
    requires
        least_via_dir(cr, k, y, x, d, c, pd, j) < no_way(),
    ensures
        0 <= pc < j,
        edge(cr, step_y(y, opposite(dir_at(d))), step_x(x, opposite(dir_at(d))), dir_at(pd), pc, y, x, dir_at(d), c),
        least_loss(cr, k, step_y(y, opposite(dir_at(d))), step_x(x, opposite(dir_at(d))), pd, pc) < no_way(),
        least_via_dir(cr, k, y, x, d, c, pd, j) == least_loss(cr, k, step_y(y, opposite(dir_at(d))), step_x(x, opposite(dir_at(d))), pd, pc) + cr.rows[y][x],
    decreases j,
{
    let pc = j - 1;
    let py = step_y(y, opposite(dir_at(d)));
    let px = step_x(x, opposite(dir_at(d)));
    let before = least_loss(cr, k, py, px, pd, pc);
    let offer = if edge(cr, py, px, dir_at(pd), pc, y, x, dir_at(d), c) && before < no_way() {
        before + cr.rows[y][x]
    } else {
        no_way()
    };
    if least_via_dir(cr, k, y, x, d, c, pd, (j - 1) as nat) <= offer {
        lemma_via_dir_pick(cr, k, y, x, d, c, pd, (j - 1) as nat)
    } else {
        pc
    }
}

proof fn lemma_via_pick(cr: Crucible, k: nat, y: int, x: int, d: int, c: int, j: nat) -> (r: (int, int))
    requires
        least_via(cr, k, y, x, d, c, j) < no_way(),
    ensures
        0 <= r.0 < j,
        0 <= r.1 < cr.hi + 2,
        edge(cr, step_y(y, opposite(dir_at(d))), step_x(x, opposite(dir_at(d))), dir_at(r.0), r.1, y, x, dir_at(d), c),
        least_loss(cr, k, step_y(y, opposite(dir_at(d))), step_x(x, opposite(dir_at(d))), r.0, r.1) < no_way(),
        least_via(cr, k, y, x, d, c, j) == least_loss(cr, k, step_y(y, opposite(dir_at(d))), step_x(x, opposite(dir_at(d))), r.0, r.1) + cr.rows[y][x],
    decreases j,
{
    if least_via(cr, k, y, x, d, c, (j - 1) as nat) <= least_via_dir(cr, k, y, x, d, c, j - 1, (cr.hi + 2) as nat) {
        lemma_via_pick(cr, k, y, x, d, c, (j - 1) as nat)
    } else {
        let pc = lemma_via_dir_pick(cr, k, y, x, d, c, j - 1, (cr.hi + 2) as nat);
        (j - 1, pc)
    }
}

proof fn lemma_goal_dir_top(cr: Crucible, k: nat, d: int, j: nat)
    ensures
        goal_dir(cr, k, d, j) <= no_way(),
    decreases j,
{
    if j > 0 {
        lemma_goal_dir_top(cr, k, d, (j - 1) as nat);
    }
}

proof fn lemma_goal_top(cr: Crucible, k: nat, j: nat)
    ensures
        goal(cr, k, j) <= no_way(),
    decreases j,
{
    if j > 0 {
        lemma_goal_top(cr, k, (j - 1) as nat);
        lemma_goal_dir_top(cr, k, j - 1, (cr.hi + 2) as nat);
    }
}

proof fn lemma_goal_dir_ge(cr: Crucible, k: nat, d: int, j: nat, v: int)
    requires
        v <= no_way(),
        forall|c: int| cr.lo <= c < j ==> v <= #[trigger] least_loss(cr, k, cr.to.0, cr.to.1, d, c),
    ensures
        v <= goal_dir(cr, k, d, j),
    decreases j,
{
    if j > 0 {
        lemma_goal_dir_ge(cr, k, d, (j - 1) as nat, v);
    }
}

proof fn lemma_goal_ge(cr: Crucible, k: nat, j: nat, v: int)
    requires
        j <= 4,
        cr.hi >= 0,
        v <= no_way(),
        forall|d: int, c: int| 0 <= d < 4 && cr.lo <= c < cr.hi + 2 ==> v <= #[trigger] least_loss(cr, k, cr.to.0, cr.to.1, d, c),
    ensures
        v <= goal(cr, k, j),
    decreases j,
{
    if j > 0 {
        lemma_goal_ge(cr, k, (j - 1) as nat, v);
        lemma_goal_dir_ge(cr, k, j - 1, (cr.hi + 2) as nat, v);
    }
}

proof fn lemma_goal_dir_le(cr: Crucible, k: nat, d: int, c: int, j: nat)
    requires
        0 <= c,
        cr.lo <= c < j,
    ensures
        goal_dir(cr, k, d, j) <= least_loss(cr, k, cr.to.0, cr.to.1, d, c),
    decreases j,
{
    if c < j - 1 {
        lemma_goal_dir_le(cr, k, d, c, (j - 1) as nat);
    }
}

proof fn lemma_goal_le(cr: Crucible, k: nat, d: int, c: int, j: nat)
    requires
        0 <= d < j,
        0 <= c,
        cr.lo <= c < cr.hi + 2,
    ensures
        goal(cr, k, j) <= least_loss(cr, k, cr.to.0, cr.to.1, d, c),
    decreases j,
{
    if d < j - 1 {
        lemma_goal_le(cr, k, d, c, (j - 1) as nat);
    } else {
        lemma_goal_dir_le(cr, k, d, c, (cr.hi + 2) as nat);
    }
}

proof fn lemma_goal_dir_pick(cr: Crucible, k: nat, d: int, j: nat) -> (c: int)
    requires
        goal_dir(cr, k, d, j) < no_way(),
    ensures
        0 <= c < j,
        cr.lo <= c,
        goal_dir(cr, k, d, j) == least_loss(cr, k, cr.to.0, cr.to.1, d, c),
    decreases j,
{
    let c = j - 1;
    let here = if c >= cr.lo { least_loss(cr, k, cr.to.0, cr.to.1, d, c) } else { no_way() };
    if goal_dir(cr, k, d, (j - 1) as nat) <= here {
        lemma_goal_dir_pick(cr, k, d, (j - 1) as nat)
    } else {
        c
    }
}

proof fn lemma_goal_pick(cr: Crucible, k: nat, j: nat) -> (r: (int, int))
    requires
        goal(cr, k, j) < no_way(),
        cr.hi >= 0,
    ensures
        0 <= r.0 < j,
        0 <= r.1 < cr.hi + 2,
        cr.lo <= r.1,
        goal(cr, k, j) == least_loss(cr, k, cr.to.0, cr.to.1, r.0, r.1),
    decreases j,
{
    if goal(cr, k, (j - 1) as nat) <= goal_dir(cr, k, j - 1, (cr.hi + 2) as nat) {
        lemma_goal_pick(cr, k, (j - 1) as nat)
    } else {
        let c = lemma_goal_dir_pick(cr, k, j - 1, (cr.hi + 2) as nat);
        (j - 1, c)
    }
}

proof fn lemma_via_dir_nonneg(cr: Crucible, k: nat, y: int, x: int, d: int, c: int, pd: int, j: nat)
    requires
        forall|y: int, x: int, d: int, c: int| 0 <= #[trigger] least_loss(cr, k, y, x, d, c),
    ensures
        0 <= least_via_dir(cr, k, y, x, d, c, pd, j),
    decreases j,
{
    if j > 0 {
        lemma_via_dir_nonneg(cr, k, y, x, d, c, pd, (j - 1) as nat);
        let py = step_y(y, opposite(dir_at(d)));
        let px = step_x(x, opposite(dir_at(d)));
        assert(0 <= least_loss(cr, k, py, px, pd, j - 1));
    }
}

proof fn lemma_via_nonneg(cr: Crucible, k: nat, y: int, x: int, d: int, c: int, j: nat)
    requires
        forall|y: int, x: int, d: int, c: int| 0 <= #[trigger] least_loss(cr, k, y, x, d, c),
    ensures
        0 <= least_via(cr, k, y, x, d, c, j),
    decreases j,
{
    if j > 0 {
        lemma_via_nonneg(cr, k, y, x, d, c, (j - 1) as nat);
        lemma_via_dir_nonneg(cr, k, y, x, d, c, j - 1, (cr.hi + 2) as nat);
    }
}

/// No heat loss is negative.
proof fn lemma_loss_nonneg(cr: Crucible, k: nat)
    ensures
        forall|y: int, x: int, d: int, c: int| 0 <= #[trigger] least_loss(cr, k, y, x, d, c),
    decreases k,
{
    if k > 0 {
        lemma_loss_nonneg(cr, (k - 1) as nat);
        assert forall|y: int, x: int, d: int, c: int| 0 <= #[trigger] least_loss(cr, k, y, x, d, c) by {
            lemma_via_nonneg(cr, (k - 1) as nat, y, x, d, c, 4);
            assert(0 <= least_loss(cr, (k - 1) as nat, y, x, d, c));
        }
    }
}

/// Some round's `goal` is the least of all.
proof fn lemma_goal_least(cr: Crucible, k0: nat)
    requires
        cr.hi >= 0,
    ensures
        exists|v: int| least_of_goals(cr, v),
    decreases goal(cr, k0, 4) + 1,
{
    lemma_loss_nonneg(cr, k0);
    lemma_goal_ge(cr, k0, 4, 0);
    if forall|k: nat| #[trigger] goal(cr, k, 4) >= goal(cr, k0, 4) {
        assert(least_of_goals(cr, goal(cr, k0, 4)));
    } else {
        let k1 = choose|k: nat| !(#[trigger] goal(cr, k, 4) >= goal(cr, k0, 4));
        lemma_loss_nonneg(cr, k1);
        lemma_goal_ge(cr, k1, 4, 0);
        lemma_goal_least(cr, k1);
    }
}

/// One move of the crucible, from state `a` to state `b` (row, column,
/// direction index, blocks in a row).
pub open spec fn moved(cr: Crucible, a: (int, int, int, int), b: (int, int, int, int)) -> bool {
    &&& 0 <= a.2 < 4
    &&& 0 <= b.2 < 4
    &&& edge(cr, a.0, a.1, dir_at(a.2), a.3, b.0, b.1, dir_at(b.2), b.3)
}

/// A journey of the crucible: from its start (at `from`, facing right, not
/// yet moved), one move after the other.
pub open spec fn journey(cr: Crucible, w: Seq<(int, int, int, int)>) -> bool {
    &&& w.len() >= 1
    &&& w[0] == (cr.from.0, cr.from.1, 1int, 0int)
    &&& forall|i: int| 0 <= i < w.len() - 1 ==> #[trigger] moved(cr, w[i], w[i + 1])
}

/// The heat lost on a journey: that of every block entered.
pub open spec fn journey_loss(cr: Crucible, w: Seq<(int, int, int, int)>) -> int
    decreases w.len(),
{
    if w.len() <= 1 {
        0
    } else {
        journey_loss(cr, w.drop_last()) + cr.rows[w.last().0][w.last().1] as int
    }
}

/// The journey ends at the goal, having moved at least `lo` blocks in a row.
pub open spec fn arrives(cr: Crucible, w: Seq<(int, int, int, int)>) -> bool {
    w.last().0 == cr.to.0 && w.last().1 == cr.to.1 && w.last().3 >= cr.lo
}

proof fn lemma_journey_states(cr: Crucible, w: Seq<(int, int, int, int)>)
    requires
        journey(cr, w),
        cr.hi >= 0,
    ensures
        forall|i: int| 0 <= i < w.len() ==> 0 <= (#[trigger] w[i]).2 < 4 && 0 <= w[i].3 < cr.hi + 2,
{
    assert forall|i: int| 0 <= i < w.len() implies 0 <= (#[trigger] w[i]).2 < 4 && 0 <= w[i].3 < cr.hi + 2 by {
        if i > 0 {
            assert(moved(cr, w[i - 1], w[i - 1 + 1]));
        }
    }
}

/// No journey to a state loses less heat than the least loss with which
/// the state is reached in as many rounds as the journey has moves.
proof fn lemma_journey_bound(cr: Crucible, w: Seq<(int, int, int, int)>, k: nat)
    requires
        journey(cr, w),
        w.len() - 1 <= k,
        cr.hi >= 0,
        0 <= cr.from.0 < cr.h,
        0 <= cr.from.1 < cr.w,
    ensures
        least_loss(cr, k, w.last().0, w.last().1, w.last().2, w.last().3) <= journey_loss(cr, w),
    decreases w.len(),
{
    let s = w.last();
    lemma_journey_states(cr, w);
    if w.len() == 1 {
        lemma_start_stays(cr, k);
    } else {
        let w1 = w.drop_last();
        let p = w1.last();
        assert(journey(cr, w1)) by {
            assert forall|i: int| 0 <= i < w1.len() - 1 implies #[trigger] moved(cr, w1[i], w1[i + 1]) by {
                assert(moved(cr, w[i], w[i + 1]));
            }
        }
        lemma_journey_bound(cr, w1, (k - 1) as nat);
        assert(moved(cr, w[w.len() - 2], w[w.len() - 2 + 1]));
        let before = least_loss(cr, (k - 1) as nat, p.0, p.1, p.2, p.3);
        assert(valid_state(cr, s.0, s.1, s.2, s.3));
        lemma_loss_bound_any(cr, k);
        lemma_loss_nonneg(cr, (k - 1) as nat);
        if before < no_way() {
            lemma_relax(cr, (k - 1) as nat, p.0, p.1, p.2, p.3, s.0, s.1, s.2, s.3);
        }
    }
}

proof fn lemma_loss_bound_any(cr: Crucible, k: nat)
    ensures
        forall|y: int, x: int, d: int, c: int| #[trigger] least_loss(cr, k, y, x, d, c) <= no_way(),
    decreases k,
{
    if k > 0 {
        lemma_loss_bound_any(cr, (k - 1) as nat);
        assert forall|y: int, x: int, d: int, c: int| #[trigger] least_loss(cr, k, y, x, d, c) <= no_way() by {
            assert(least_loss(cr, (k - 1) as nat, y, x, d, c) <= no_way());
        }
    }
}

/// The start is reached with no heat lost, in any number of rounds.
proof fn lemma_start_stays(cr: Crucible, k: nat)
    requires
        cr.hi >= 0,
        0 <= cr.from.0 < cr.h,
        0 <= cr.from.1 < cr.w,
    ensures
        least_loss(cr, k, cr.from.0, cr.from.1, 1, 0) <= 0,
    decreases k,
{
    if k > 0 {
        lemma_start_stays(cr, (k - 1) as nat);
    }
}

/// A state reached in `k` rounds with a least loss is reached by a journey
/// of at most `k` moves with that loss.
proof fn lemma_journey_exists(cr: Crucible, k: nat, y: int, x: int, d: int, c: int)
    requires
        least_loss(cr, k, y, x, d, c) < no_way(),
    ensures
        exists|w: Seq<(int, int, int, int)>| journey(cr, w) && w.len() - 1 <= k && w.last() == (y, x, d, c)
            && journey_loss(cr, w) == least_loss(cr, k, y, x, d, c),
    decreases k,
{
    if k == 0 {
        let w = seq![(y, x, d, c)];
        assert(journey(cr, w));
        assert(journey_loss(cr, w) == 0);
        assert(journey(cr, w) && w.len() - 1 <= k && w.last() == (y, x, d, c)
            && journey_loss(cr, w) == least_loss(cr, k, y, x, d, c));
    } else {
        let a = least_loss(cr, (k - 1) as nat, y, x, d, c);
        let b = least_via(cr, (k - 1) as nat, y, x, d, c, 4);
        assert(valid_state(cr, y, x, d, c));
        if a <= b {
            lemma_journey_exists(cr, (k - 1) as nat, y, x, d, c);
            let w = choose|w: Seq<(int, int, int, int)>| journey(cr, w) && w.len() - 1 <= k - 1 && w.last() == (y, x, d, c)
                && journey_loss(cr, w) == least_loss(cr, (k - 1) as nat, y, x, d, c);
            assert(journey(cr, w) && w.len() - 1 <= k && w.last() == (y, x, d, c)
                && journey_loss(cr, w) == least_loss(cr, k, y, x, d, c));
        } else {
            let r = lemma_via_pick(cr, (k - 1) as nat, y, x, d, c, 4);
            let py = step_y(y, opposite(dir_at(d)));
            let px = step_x(x, opposite(dir_at(d)));
            lemma_journey_exists(cr, (k - 1) as nat, py, px, r.0, r.1);
            let w1 = choose|w: Seq<(int, int, int, int)>| journey(cr, w) && w.len() - 1 <= k - 1 && w.last() == (py, px, r.0, r.1)
                && journey_loss(cr, w) == least_loss(cr, (k - 1) as nat, py, px, r.0, r.1);
            let w = w1.push((y, x, d, c));
            assert(w.drop_last() =~= w1);
            assert(journey(cr, w)) by {
                assert forall|i: int| 0 <= i < w.len() - 1 implies #[trigger] moved(cr, w[i], w[i + 1]) by {
                    if i < w1.len() - 1 {
                        assert(moved(cr, w1[i], w1[i + 1]));
                    } else {
                        assert(w[i] == (py, px, r.0, r.1));
                    }
                }
            }
            assert(journey_loss(cr, w) == journey_loss(cr, w1) + cr.rows[y][x] as int);
            assert(journey(cr, w) && w.len() - 1 <= k && w.last() == (y, x, d, c)
                && journey_loss(cr, w) == least_loss(cr, k, y, x, d, c));
        }
    }
}

/// The least heat loss is that of the best journey: no journey that ends
/// at the goal, having moved at least `lo` blocks in a row, loses less
/// heat; and where some journey arrives at all, one loses exactly that
/// much (else it is `no_way()`).
pub proof fn lemma_least_heat_loss(cr: Crucible)
    requires
        cr.hi >= 0,
        0 <= cr.from.0 < cr.h,
        0 <= cr.from.1 < cr.w,
    ensures
        forall|w: Seq<(int, int, int, int)>| journey(cr, w) && arrives(cr, w) ==> least_heat_loss(cr) <= journey_loss(cr, w),
        least_heat_loss(cr) < no_way() ==> exists|w: Seq<(int, int, int, int)>| journey(cr, w) && arrives(cr, w)
            && journey_loss(cr, w) == least_heat_loss(cr),
        least_heat_loss(cr) <= no_way(),
{
    lemma_goal_least(cr, 0);
    let v = least_heat_loss(cr);
    assert(least_of_goals(cr, v));
    let k0 = choose|k: nat| #[trigger] goal(cr, k, 4) == v;
    lemma_goal_top(cr, k0, 4);
    assert forall|w: Seq<(int, int, int, int)>| journey(cr, w) && arrives(cr, w) implies v <= journey_loss(cr, w) by {
        let k = (w.len() - 1) as nat;
        lemma_journey_states(cr, w);
        let s = w.last();
        assert(0 <= s.2 < 4 && 0 <= s.3 < cr.hi + 2);
        lemma_journey_bound(cr, w, k);
        lemma_goal_le(cr, k, s.2, s.3, 4);
        assert(goal(cr, k, 4) >= v);
    }
    if v < no_way() {
        let r = lemma_goal_pick(cr, k0, 4);
        lemma_journey_exists(cr, k0, cr.to.0, cr.to.1, r.0, r.1);
        let w = choose|w: Seq<(int, int, int, int)>| journey(cr, w) && w.len() - 1 <= k0 && w.last() == (cr.to.0, cr.to.1, r.0, r.1)
            && journey_loss(cr, w) == least_loss(cr, k0, cr.to.0, cr.to.1, r.0, r.1);
        assert(arrives(cr, w));
    }
}

/// A search entry: a heat loss, and the state reached with it.
pub type Entry = (u32, usize, usize, usize, usize);

/// The state has been settled in the table `vis`.
pub open spec fn settled(cr: Crucible, vis: Seq<bool>, y: int, x: int, d: int, c: int) -> bool {
    vis[slot(cr, y, x, d, c)]
}

/// The goal block reached having moved fewer than `lo` blocks in a row: the
/// journey cannot end there, nor go on.
pub open spec fn dead(cr: Crucible, y: int, x: int, c: int) -> bool {
    y == cr.to.0 && x == cr.to.1 && c < cr.lo
}

/// Some entry of `q` reaches the state with a heat loss of at most `b`.
pub open spec fn queued(q: Seq<Entry>, y: int, x: int, d: int, c: int, b: int) -> bool {
    exists|i: int| 0 <= i < q.len() && (#[trigger] q[i]).1 == y && q[i].2 == x && q[i].3 == d && q[i].4 == c && q[i].0 <= b
}

/// The state is settled, or waits in `q` with a heat loss of at most `b`.
pub open spec fn covered(cr: Crucible, q: Seq<Entry>, vis: Seq<bool>, y: int, x: int, d: int, c: int, b: int) -> bool {
    settled(cr, vis, y, x, d, c) || queued(q, y, x, d, c, b)
}

/// Every move from the state is covered, at most at the state's least heat
/// loss of any round plus that of the block moved to.
pub open spec fn closed(cr: Crucible, q: Seq<Entry>, vis: Seq<bool>, py: int, px: int, pd: int, pc: int) -> bool {
    forall|k: nat, ny: int, nx: int, nd: int, nc: int|
        #![trigger least_loss(cr, k, py, px, pd, pc), edge(cr, py, px, dir_at(pd), pc, ny, nx, dir_at(nd), nc)]
        0 <= nd < 4 && edge(cr, py, px, dir_at(pd), pc, ny, nx, dir_at(nd), nc) && !dead(cr, ny, nx, nc)
            ==> covered(cr, q, vis, ny, nx, nd, nc, least_loss(cr, k, py, px, pd, pc) + cr.rows[ny][nx])
}

/// What the search keeps: every settled state is closed, and the start is
/// settled or waits with no heat loss.
pub open spec fn frontier_inv(cr: Crucible, q: Seq<Entry>, vis: Seq<bool>) -> bool {
    &&& forall|py: int, px: int, pd: int, pc: int| valid_state(cr, py, px, pd, pc) && #[trigger] settled(cr, vis, py, px, pd, pc)
        ==> closed(cr, q, vis, py, px, pd, pc)
    &&& !dead(cr, cr.from.0, cr.from.1, 0) ==> covered(cr, q, vis, cr.from.0, cr.from.1, 1, 0, 0)
}

/// A state reachable with some heat loss that is neither settled nor dead
/// has an entry of no more heat loss waiting.
proof fn lemma_frontier(cr: Crucible, q: Seq<Entry>, vis: Seq<bool>, k: nat, y: int, x: int, d: int, c: int)
    requires
        frontier_inv(cr, q, vis),
        valid_state(cr, y, x, d, c),
        !settled(cr, vis, y, x, d, c),
        !dead(cr, y, x, c),
        least_loss(cr, k, y, x, d, c) < no_way(),
    ensures
        exists|i: int| 0 <= i < q.len() && (#[trigger] q[i]).0 <= least_loss(cr, k, y, x, d, c),
    decreases k,
{
    if k == 0 {
        assert(y == cr.from.0 && x == cr.from.1 && d == 1 && c == 0);
        assert(queued(q, y, x, d, c, 0));
        let i = choose|i: int| 0 <= i < q.len() && (#[trigger] q[i]).1 == y && q[i].2 == x && q[i].3 == d && q[i].4 == c && q[i].0 <= 0;
        assert(q[i].0 <= least_loss(cr, k, y, x, d, c));
    } else {
        let prev = least_loss(cr, (k - 1) as nat, y, x, d, c);
        let via = least_via(cr, (k - 1) as nat, y, x, d, c, 4);
        if prev <= via {
            lemma_frontier(cr, q, vis, (k - 1) as nat, y, x, d, c);
        } else {
            let (pd, pc) = lemma_via_pick(cr, (k - 1) as nat, y, x, d, c, 4);
            let py = step_y(y, opposite(dir_at(d)));
            let px = step_x(x, opposite(dir_at(d)));
            assert(edge(cr, py, px, dir_at(pd), pc, y, x, dir_at(d), c));
            assert(valid_state(cr, py, px, pd, pc));
            if settled(cr, vis, py, px, pd, pc) {
                assert(closed(cr, q, vis, py, px, pd, pc));
                assert(least_loss(cr, (k - 1) as nat, py, px, pd, pc) < no_way());
                assert(covered(cr, q, vis, y, x, d, c, least_loss(cr, (k - 1) as nat, py, px, pd, pc) + cr.rows[y][x]));
                let i = choose|i: int| 0 <= i < q.len() && (#[trigger] q[i]).1 == y && q[i].2 == x && q[i].3 == d && q[i].4 == c
                    && q[i].0 <= least_loss(cr, (k - 1) as nat, py, px, pd, pc) + cr.rows[y][x];
                assert(q[i].0 <= least_loss(cr, k, y, x, d, c));
            } else {
                assert(!dead(cr, py, px, pc));
                lemma_frontier(cr, q, vis, (k - 1) as nat, py, px, pd, pc);
                assert(cr.rows[y][x] >= 0);
            }
        }
    }
}

/// What the searching functions know of their arguments.
pub open spec fn setting(cr: Crucible, map: HeatMap, from: (usize, usize), to: (usize, usize), lo: usize, hi: usize) -> bool {
    &&& cr == crucible(map, from, to, lo, hi)
    &&& forall|y: int| 0 <= y < cr.h ==> (#[trigger] cr.rows[y]).len() == cr.w
    &&& 0 <= cr.from.0 < cr.h && 0 <= cr.from.1 < cr.w
    &&& 0 <= cr.to.0 < cr.h && 0 <= cr.to.1 < cr.w
    &&& crucible_fits(cr)
}

proof fn lemma_counts(cr: Crucible)
    requires
        cr.h >= 1,
        cr.w >= 1,
        cr.hi >= 0,
    ensures
        cr.h * cr.w <= state_count(cr),
        cr.h * cr.w * 4 <= state_count(cr),
        cr.hi + 2 <= state_count(cr),
{
    let hw = cr.h * cr.w;
    assert(hw >= 1) by (nonlinear_arith)
        requires
            cr.h >= 1,
            cr.w >= 1,
            hw == cr.h * cr.w,
    ;
    assert(hw <= hw * 4 * (cr.hi + 2)) by (nonlinear_arith)
        requires
            hw >= 1,
            cr.hi >= 0,
    ;
    assert(hw * 4 <= hw * 4 * (cr.hi + 2)) by (nonlinear_arith)
        requires
            hw >= 1,
            cr.hi >= 0,
    ;
    assert(cr.hi + 2 <= hw * 4 * (cr.hi + 2)) by (nonlinear_arith)
        requires
            hw >= 1,
            cr.hi >= 0,
    ;
}

fn dir_from(i: usize) -> (d: Dir)
    requires
        i < 4,
    ensures
        d == dir_at(i as int),
{
    if i == 0 {
        Dir::Left
    } else if i == 1 {
        Dir::Right
    } else if i == 2 {
        Dir::Up
    } else {
        Dir::Down
    }
}

/// The entry `e` was pushed for the move `n` from a state of direction
/// `pd` that had moved `pc` blocks in a row and cost `cost`.
pub open spec fn pushed(e: Entry, n: ((usize, usize), Dir), cost: int, pd: usize, pc: usize, rows: Seq<Seq<u32>>) -> bool {
    &&& e.1 == n.0.0
    &&& e.2 == n.0.1
    &&& e.3 < 4
    &&& dir_at(e.3 as int) == n.1
    &&& e.0 == cost + rows[n.0.0 as int][n.0.1 as int]
    &&& e.4 == (if e.3 == pd { pc + 1 } else { 1 })
}

/// The moves open to the crucible are exactly the allowed ones.
proof fn lemma_moves(h: int, w: int, y: int, x: int, dir: Dir, count: int, lo: int, hi: int)
    ensures
        forall|t: int| 0 <= t < moves(h, w, y, x, dir, count, lo, hi).len() ==> may_move(h, w, y, x, dir, count, lo, hi,
            (#[trigger] moves(h, w, y, x, dir, count, lo, hi)[t]).2)
            && moves(h, w, y, x, dir, count, lo, hi)[t].0 == step_y(y, moves(h, w, y, x, dir, count, lo, hi)[t].2)
            && moves(h, w, y, x, dir, count, lo, hi)[t].1 == step_x(x, moves(h, w, y, x, dir, count, lo, hi)[t].2),
        forall|nd: Dir| #[trigger] may_move(h, w, y, x, dir, count, lo, hi, nd) ==> exists|t: int|
            0 <= t < moves(h, w, y, x, dir, count, lo, hi).len()
            && #[trigger] moves(h, w, y, x, dir, count, lo, hi)[t] == (step_y(y, nd), step_x(x, nd), nd),
{
    let one = |nd: Dir|
        if may_move(h, w, y, x, dir, count, lo, hi, nd) {
            seq![(step_y(y, nd), step_x(x, nd), nd)]
        } else {
            Seq::<(int, int, Dir)>::empty()
        };
    let a = one(Dir::Left);
    let b = one(Dir::Right);
    let c = one(Dir::Up);
    let d = one(Dir::Down);
    let mv = moves(h, w, y, x, dir, count, lo, hi);
    assert(mv =~= a + b + c + d);
    assert forall|t: int| 0 <= t < mv.len() implies may_move(h, w, y, x, dir, count, lo, hi, (#[trigger] mv[t]).2)
        && mv[t].0 == step_y(y, mv[t].2) && mv[t].1 == step_x(x, mv[t].2) by {
        if t < a.len() {
            assert(mv[t] == a[t]);
        } else if t < a.len() + b.len() {
            assert(mv[t] == b[t - a.len()]);
        } else if t < a.len() + b.len() + c.len() {
            assert(mv[t] == c[t - a.len() - b.len()]);
        } else {
            assert(mv[t] == d[t - a.len() - b.len() - c.len()]);
        }
    }
    assert forall|nd: Dir| #[trigger] may_move(h, w, y, x, dir, count, lo, hi, nd) implies exists|t: int|
        0 <= t < mv.len() && #[trigger] mv[t] == (step_y(y, nd), step_x(x, nd), nd) by {
        match nd {
            Dir::Left => {
                assert(mv[0] == a[0]);
            },
            Dir::Right => {
                assert(mv[a.len() as int] == b[0]);
            },
            Dir::Up => {
                assert(mv[(a.len() + b.len()) as int] == c[0]);
            },
            Dir::Down => {
                assert(mv[(a.len() + b.len() + c.len()) as int] == d[0]);
            },
        }
    }
}

/// The state can be reached with a heat loss of at most `v`.
pub open spec fn affordable(cr: Crucible, y: int, x: int, d: int, c: int, v: int) -> bool {
    exists|k: nat| #[trigger] least_loss(cr, k, y, x, d, c) <= v
}

/// What the entries of the queue hold: states on the map, reached with
/// their heat loss, which is at most `sc` times the greatest heat loss of a
/// block.
pub open spec fn entries_ok(cr: Crucible, q: Seq<Entry>, sc: int, m: int) -> bool {
    forall|i: int| 0 <= i < q.len() ==> valid_state(cr, (#[trigger] q[i]).1 as int, q[i].2 as int, q[i].3 as int, q[i].4 as int)
        && affordable(cr, q[i].1 as int, q[i].2 as int, q[i].3 as int, q[i].4 as int, q[i].0 as int)
        && q[i].0 <= sc * m
}

fn dir_index(d: Dir) -> (i: usize)
    ensures
        i < 4,
        dir_at(i as int) == d,
{
    match d {
        Dir::Left => 0,
        Dir::Right => 1,
        Dir::Up => 2,
        Dir::Down => 3,
    }
}

fn slot_of(w: usize, hi2: usize, y: usize, x: usize, d: usize, c: usize, Ghost(cr): Ghost<Crucible>) -> (res: usize)
    requires
        cr.w == w,
        cr.hi + 2 == hi2,
        cr.hi >= 0,
        valid_state(cr, y as int, x as int, d as int, c as int),
        state_count(cr) <= u32::MAX,
    ensures
        res == slot(cr, y as int, x as int, d as int, c as int),
        res < state_count(cr),
{
    proof {
        lemma_slot(cr, y as int, x as int, d as int, c as int);
        lemma_counts(cr);
    }
    ((y * w + x) * 4 + d) * hi2 + c
}

/// Removing an entry whose state is dead or settled keeps what the search
/// keeps.
proof fn lemma_inv_remove(cr: Crucible, q: Seq<Entry>, vis: Seq<bool>, bi: int)
    requires
        frontier_inv(cr, q, vis),
        0 <= bi < q.len(),
        dead(cr, q[bi].1 as int, q[bi].2 as int, q[bi].4 as int)
            || settled(cr, vis, q[bi].1 as int, q[bi].2 as int, q[bi].3 as int, q[bi].4 as int),
    ensures
        frontier_inv(cr, q.remove(bi), vis),
{
    let q2 = q.remove(bi);
    assert forall|y: int, x: int, d: int, c: int, b: int|
        !dead(cr, y, x, c) && !settled(cr, vis, y, x, d, c) && #[trigger] queued(q, y, x, d, c, b) implies queued(q2, y, x, d, c, b) by {
        let i = choose|i: int| 0 <= i < q.len() && (#[trigger] q[i]).1 == y && q[i].2 == x && q[i].3 == d && q[i].4 == c && q[i].0 <= b;
        if i < bi {
            assert(q2[i] == q[i]);
        } else {
            assert(i != bi);
            assert(q2[i - 1] == q[i]);
        }
    }
    assert forall|py: int, px: int, pd: int, pc: int| valid_state(cr, py, px, pd, pc) && #[trigger] settled(cr, vis, py, px, pd, pc)
        implies closed(cr, q2, vis, py, px, pd, pc) by {
        assert(closed(cr, q, vis, py, px, pd, pc));
        assert forall|k: nat, ny: int, nx: int, nd: int, nc: int|
            0 <= nd < 4 && #[trigger] edge(cr, py, px, dir_at(pd), pc, ny, nx, dir_at(nd), nc) && !dead(cr, ny, nx, nc)
            implies covered(cr, q2, vis, ny, nx, nd, nc, #[trigger] least_loss(cr, k, py, px, pd, pc) + cr.rows[ny][nx]) by {
            assert(covered(cr, q, vis, ny, nx, nd, nc, least_loss(cr, k, py, px, pd, pc) + cr.rows[ny][nx]));
        }
    }
}

proof fn lemma_entries_remove(cr: Crucible, q: Seq<Entry>, bi: int, sc: int, m: int)
    requires
        entries_ok(cr, q, sc, m),
        0 <= bi < q.len(),
    ensures
        entries_ok(cr, q.remove(bi), sc, m),
{
    let q2 = q.remove(bi);
    assert forall|i: int| 0 <= i < q2.len() implies #[trigger] q2[i] == q[if i < bi { i } else { i + 1 }] by {}
}

/// Settling the state of entry `bi`, the cheapest, and queueing its moves
/// keeps what the search keeps.
#[verifier::rlimit(50)]
proof fn lemma_settle(
    cr: Crucible,
    q: Seq<Entry>,
    vis: Seq<bool>,
    bi: int,
    q3: Seq<Entry>,
    vis2: Seq<bool>,
    ns: Seq<((usize, usize), Dir)>,
    sc: int,
    m: int,
)
    requires
        frontier_inv(cr, q, vis),
        entries_ok(cr, q, sc, m),
        cr.hi >= 0,
        0 <= cr.h,
        0 <= cr.w,
        forall|y: int| 0 <= y < cr.h ==> (#[trigger] cr.rows[y]).len() == cr.w,
        vis.len() == state_count(cr),
        0 <= bi < q.len(),
        valid_state(cr, q[bi].1 as int, q[bi].2 as int, q[bi].3 as int, q[bi].4 as int),
        !dead(cr, q[bi].1 as int, q[bi].2 as int, q[bi].4 as int),
        !(q[bi].1 == cr.to.0 && q[bi].2 == cr.to.1),
        !settled(cr, vis, q[bi].1 as int, q[bi].2 as int, q[bi].3 as int, q[bi].4 as int),
        forall|kk: nat| q[bi].0 <= #[trigger] least_loss(cr, kk, q[bi].1 as int, q[bi].2 as int, q[bi].3 as int, q[bi].4 as int),
        vis2 == vis.update(slot(cr, q[bi].1 as int, q[bi].2 as int, q[bi].3 as int, q[bi].4 as int), true),
        q3.len() == q.len() - 1 + ns.len(),
        forall|i: int| 0 <= i < q.len() - 1 ==> #[trigger] q3[i] == q.remove(bi)[i],
        ns.len() == moves(cr.h, cr.w, q[bi].1 as int, q[bi].2 as int, dir_at(q[bi].3 as int), q[bi].4 as int, cr.lo, cr.hi).len(),
        forall|i: int| 0 <= i < ns.len() ==> ((#[trigger] ns[i]).0.0 as int, ns[i].0.1 as int, ns[i].1)
            == moves(cr.h, cr.w, q[bi].1 as int, q[bi].2 as int, dir_at(q[bi].3 as int), q[bi].4 as int, cr.lo, cr.hi)[i],
        forall|i: int| 0 <= i < ns.len() ==> pushed(#[trigger] q3[q.len() - 1 + i], ns[i], q[bi].0 as int, q[bi].3, q[bi].4, cr.rows),
        m >= 0,
        forall|y: int, x: int| 0 <= y < cr.h && 0 <= x < cr.w ==> cr.rows[y][x] <= m,
        sc + 1 <= state_count(cr),
        state_count(cr) * m < u32::MAX,
        valid_state(cr, cr.from.0, cr.from.1, 1, 0),
    ensures
        frontier_inv(cr, q3, vis2),
        entries_ok(cr, q3, sc + 1, m),
        forall|y: int, x: int, d: int, c: int| valid_state(cr, y, x, d, c) ==>
            #[trigger] settled(cr, vis2, y, x, d, c) == (settled(cr, vis, y, x, d, c)
                || (y == q[bi].1 && x == q[bi].2 && d == q[bi].3 && c == q[bi].4)),
{
    let (cost, py, px, pd, pc) = q[bi];
    let u = (py as int, px as int, pd as int, pc as int);
    let q2 = q.remove(bi);
    let base = q.len() - 1;
    let mv = moves(cr.h, cr.w, py as int, px as int, dir_at(pd as int), pc as int, cr.lo, cr.hi);
    lemma_moves(cr.h, cr.w, py as int, px as int, dir_at(pd as int), pc as int, cr.lo, cr.hi);
    assert forall|i: int| 0 <= i < q2.len() implies #[trigger] q2[i] == q[if i < bi { i } else { i + 1 }] by {}
    assert(sc * m <= (sc + 1) * m) by (nonlinear_arith)
        requires
            m >= 0,
    ;
    assert((sc + 1) * m <= state_count(cr) * m) by (nonlinear_arith)
        requires
            sc + 1 <= state_count(cr),
            m >= 0,
    ;
    assert(cost <= sc * m);
    assert(sc * m + m == (sc + 1) * m) by (nonlinear_arith);
    // Settled states: those before, and `u`.
    assert forall|y: int, x: int, d: int, c: int| valid_state(cr, y, x, d, c) implies
        #[trigger] settled(cr, vis2, y, x, d, c) == (settled(cr, vis, y, x, d, c) || (y, x, d, c) == u) by {
        lemma_slot(cr, y, x, d, c);
        lemma_slot(cr, u.0, u.1, u.2, u.3);
        if slot(cr, y, x, d, c) == slot(cr, u.0, u.1, u.2, u.3) {
            lemma_slot_inj(cr, y, x, d, c, u.0, u.1, u.2, u.3);
        }
    }
    // The entries.
    let k0 = choose|k0: nat| #[trigger] least_loss(cr, k0, u.0, u.1, u.2, u.3) <= cost;
    assert forall|i: int| 0 <= i < q3.len() implies valid_state(cr, (#[trigger] q3[i]).1 as int, q3[i].2 as int, q3[i].3 as int, q3[i].4 as int)
        && affordable(cr, q3[i].1 as int, q3[i].2 as int, q3[i].3 as int, q3[i].4 as int, q3[i].0 as int)
        && q3[i].0 <= (sc + 1) * m by {
        if i < base {
            assert(q3[i] == q2[i]);
        } else {
            let t = i - base;
            assert(pushed(q3[base + t], ns[t], cost as int, pd, pc, cr.rows));
            let e = q3[i];
            assert(mv[t] == (ns[t].0.0 as int, ns[t].0.1 as int, ns[t].1));
            let nd = ns[t].1;
            assert(may_move(cr.h, cr.w, py as int, px as int, dir_at(pd as int), pc as int, cr.lo, cr.hi, nd));
            assert(dir_at(e.3 as int) == nd);
            assert(e.3 == pd <==> nd == dir_at(pd as int));
            assert(edge(cr, py as int, px as int, dir_at(pd as int), pc as int, e.1 as int, e.2 as int, dir_at(e.3 as int), e.4 as int));
            assert(valid_state(cr, e.1 as int, e.2 as int, e.3 as int, e.4 as int));
            lemma_relax(cr, k0, py as int, px as int, pd as int, pc as int, e.1 as int, e.2 as int, e.3 as int, e.4 as int);
            assert(least_loss(cr, k0 + 1, e.1 as int, e.2 as int, e.3 as int, e.4 as int) <= e.0);
            assert(cr.rows[e.1 as int][e.2 as int] <= m);
        }
    }
    // What the search keeps.
    assert forall|y: int, x: int, d: int, c: int, b: int|
        !(y == u.0 && x == u.1 && d == u.2 && c == u.3) && #[trigger] queued(q, y, x, d, c, b) implies queued(q3, y, x, d, c, b) by {
        let i = choose|i: int| 0 <= i < q.len() && (#[trigger] q[i]).1 == y && q[i].2 == x && q[i].3 == d && q[i].4 == c && q[i].0 <= b;
        if i < bi {
            assert(q3[i] == q[i]);
        } else {
            assert(i != bi);
            assert(q3[i - 1] == q[i]);
        }
    }
    assert forall|p0: int, p1: int, p2: int, p3: int| valid_state(cr, p0, p1, p2, p3) && #[trigger] settled(cr, vis2, p0, p1, p2, p3)
        implies closed(cr, q3, vis2, p0, p1, p2, p3) by {
        if (p0, p1, p2, p3) == u {
            assert forall|k: nat, ny: int, nx: int, nd: int, nc: int|
                0 <= nd < 4 && #[trigger] edge(cr, p0, p1, dir_at(p2), p3, ny, nx, dir_at(nd), nc) && !dead(cr, ny, nx, nc)
                implies covered(cr, q3, vis2, ny, nx, nd, nc, #[trigger] least_loss(cr, k, p0, p1, p2, p3) + cr.rows[ny][nx]) by {
                let t = choose|t: int| 0 <= t < mv.len() && #[trigger] mv[t] == (step_y(p0, dir_at(nd)), step_x(p1, dir_at(nd)), dir_at(nd));
                assert(pushed(q3[base + t], ns[t], cost as int, pd, pc, cr.rows));
                let e = q3[base + t];
                assert(dir_at(e.3 as int) == dir_at(nd));
                assert(e.3 == nd);
                assert(e.0 <= least_loss(cr, k, p0, p1, p2, p3) + cr.rows[ny][nx]);
                assert(queued(q3, ny, nx, nd, nc, least_loss(cr, k, p0, p1, p2, p3) + cr.rows[ny][nx]));
            }
        } else {
            assert(settled(cr, vis, p0, p1, p2, p3));
            assert(closed(cr, q, vis, p0, p1, p2, p3));
            assert forall|k: nat, ny: int, nx: int, nd: int, nc: int|
                0 <= nd < 4 && #[trigger] edge(cr, p0, p1, dir_at(p2), p3, ny, nx, dir_at(nd), nc) && !dead(cr, ny, nx, nc)
                implies covered(cr, q3, vis2, ny, nx, nd, nc, #[trigger] least_loss(cr, k, p0, p1, p2, p3) + cr.rows[ny][nx]) by {
                assert(covered(cr, q, vis, ny, nx, nd, nc, least_loss(cr, k, p0, p1, p2, p3) + cr.rows[ny][nx]));
                assert(valid_state(cr, ny, nx, nd, nc));
            }
        }
    }
    if !dead(cr, cr.from.0, cr.from.1, 0) {
        assert(covered(cr, q, vis, cr.from.0, cr.from.1, 1, 0, 0));
        assert(valid_state(cr, cr.from.0, cr.from.1, 1, 0));
    }
}

/// The least heat loss for the crucible from `from` to `to`, moving at
/// least `min_straight` and at most `max_straight` blocks in a row (see
/// `least_heat_loss`): a search that settles states cheapest first.
#[verifier::loop_isolation(false)]
#[verifier::rlimit(50)]
pub fn dijkstra_constraints(
    map: &HeatMap,
    from: (usize, usize),
    to: (usize, usize),
    min_straight: usize,
    max_straight: usize,
) -> (res: u32)
    requires
        from.0 < heat_rows(*map).len(),
        from.1 < heat_width(*map),
        to.0 < heat_rows(*map).len(),
        to.1 < heat_width(*map),
        crucible_fits(crucible(*map, from, to, min_straight, max_straight)),
    ensures
        res as int == least_heat_loss(crucible(*map, from, to, min_straight, max_straight)),
{
    let (h, w) = heat_dim(map);
    let ghost cr = crucible(*map, from, to, min_straight, max_straight);
    let ghost m = rows_max(cr.rows);
    proof {
        lemma_counts(cr);
        lemma_rows_max(cr.rows);
        lemma_loss_bound(cr, 0, m);
    }
    let hi2 = max_straight + 2;
    let n = h * w * 4 * hi2;
    let mut visited: Vec<bool> = Vec::new();
    while visited.len() < n
        invariant
            visited@.len() <= n,
            falses(visited@) == visited@.len(),
            forall|i: int| 0 <= i < visited@.len() ==> !(#[trigger] visited@[i]),
        decreases n - visited@.len(),
    {
        let ghost before = visited@;
        visited.push(false);
        assert(visited@.drop_last() =~= before);
    }
    let mut queue: Vec<Entry> = Vec::new();
    queue.push((0, from.0, from.1, 1, 0));
    let ghost mut sc: int = 0;
    proof {
        assert(least_loss(cr, 0, from.0 as int, from.1 as int, 1, 0) == 0);
        assert(affordable(cr, from.0 as int, from.1 as int, 1, 0, 0));
        assert(queued(queue@, from.0 as int, from.1 as int, 1, 0, 0)) by {
            assert(queue@[0] == (0u32, from.0, from.1, 1usize, 0usize));
        }
        assert(0 * m == 0);
        assert forall|py: int, px: int, pd: int, pc: int| valid_state(cr, py, px, pd, pc) && #[trigger] settled(cr, visited@, py, px, pd, pc)
            implies closed(cr, queue@, visited@, py, px, pd, pc) by {
            lemma_slot(cr, py, px, pd, pc);
        }
        assert forall|d: int, c: int| 0 <= d < 4 && cr.lo <= c < cr.hi + 2 && 0 <= c
            implies !#[trigger] settled(cr, visited@, cr.to.0, cr.to.1, d, c) by {
            lemma_slot(cr, cr.to.0, cr.to.1, d, c);
        }
    }
    loop
        invariant
            setting(cr, *map, from, to, min_straight, max_straight),
            h == cr.h,
            w == cr.w,
            hi2 == cr.hi + 2,
            cr.hi >= 0,
            m == rows_max(cr.rows),
            m >= 0,
            forall|y: int, x: int| 0 <= y < cr.h && 0 <= x < cr.w ==> cr.rows[y][x] <= m,
            n == state_count(cr),
            visited@.len() == n,
            0 <= sc,
            sc + falses(visited@) == n,
            entries_ok(cr, queue@, sc, m),
            frontier_inv(cr, queue@, visited@),
            forall|d: int, c: int| 0 <= d < 4 && cr.lo <= c < cr.hi + 2 && 0 <= c
                ==> !#[trigger] settled(cr, visited@, cr.to.0, cr.to.1, d, c),
        decreases falses(visited@), queue@.len(),
    {
        if queue.len() == 0 {
            proof {
                assert forall|k: nat| #[trigger] goal(cr, k, 4) == no_way() by {
                    lemma_loss_bound(cr, k, m);
                    assert forall|d: int, c: int| 0 <= d < 4 && cr.lo <= c < cr.hi + 2 implies
                        no_way() <= #[trigger] least_loss(cr, k, cr.to.0, cr.to.1, d, c) by {
                        if least_loss(cr, k, cr.to.0, cr.to.1, d, c) < no_way() {
                            assert(0 <= c);
                            lemma_frontier(cr, queue@, visited@, k, cr.to.0, cr.to.1, d, c);
                        }
                    }
                    lemma_goal_ge(cr, k, 4, no_way());
                    lemma_goal_top(cr, k, 4);
                }
                assert(goal(cr, 0, 4) == no_way());
                assert(least_of_goals(cr, no_way()));
                let v = least_heat_loss(cr);
                assert(least_of_goals(cr, v));
                assert(goal(cr, 0, 4) >= v);
            }
            return u32::MAX;
        }
        let mut bi: usize = 0;
        let mut j: usize = 1;
        while j < queue.len()
            invariant
                0 <= bi < queue@.len(),
                1 <= j <= queue@.len(),
                forall|i: int| 0 <= i < j ==> (#[trigger] queue@[i]).0 >= queue@[bi as int].0,
            decreases queue@.len() - j,
        {
            if queue[j].0 < queue[bi].0 {
                bi = j;
            }
            j += 1;
        }
        let ghost q = queue@;
        let ghost vis = visited@;
        let (cost, py, px, pd, pc) = queue.remove(bi);
        assert(q[bi as int] == (cost, py, px, pd, pc));
        assert(valid_state(cr, py as int, px as int, pd as int, pc as int));
        if py == to.0 && px == to.1 && pc < min_straight {
            proof {
                lemma_inv_remove(cr, q, vis, bi as int);
                lemma_entries_remove(cr, q, bi as int, sc, m);
            }
            continue;
        }
        let k = slot_of(w, hi2, py, px, pd, pc, Ghost(cr));
        if visited[k] {
            proof {
                lemma_inv_remove(cr, q, vis, bi as int);
                lemma_entries_remove(cr, q, bi as int, sc, m);
            }
            continue;
        }
        // The cheapest entry that is neither dead nor settled: its cost is
        // the least with which its state can be reached.
        proof {
            assert forall|kk: nat| cost <= #[trigger] least_loss(cr, kk, py as int, px as int, pd as int, pc as int) by {
                lemma_loss_bound(cr, kk, m);
                if least_loss(cr, kk, py as int, px as int, pd as int, pc as int) < no_way() {
                    lemma_frontier(cr, q, vis, kk, py as int, px as int, pd as int, pc as int);
                }
            }
        }
        if py == to.0 && px == to.1 {
            proof {
                let k0 = choose|k0: nat| #[trigger] least_loss(cr, k0, py as int, px as int, pd as int, pc as int) <= cost;
                lemma_goal_le(cr, k0, pd as int, pc as int, 4);
                assert forall|kk: nat| #[trigger] goal(cr, kk, 4) >= cost by {
                    lemma_loss_bound(cr, kk, m);
                    assert forall|d: int, c: int| 0 <= d < 4 && cr.lo <= c < cr.hi + 2 implies
                        cost <= #[trigger] least_loss(cr, kk, cr.to.0, cr.to.1, d, c) by {
                        if least_loss(cr, kk, cr.to.0, cr.to.1, d, c) < no_way() {
                            assert(0 <= c);
                            lemma_frontier(cr, q, vis, kk, cr.to.0, cr.to.1, d, c);
                        }
                    }
                    lemma_goal_ge(cr, kk, 4, cost as int);
                }
                assert(goal(cr, k0, 4) == cost);
                assert(least_of_goals(cr, cost as int));
                let v = least_heat_loss(cr);
                assert(least_of_goals(cr, v));
                assert(goal(cr, k0, 4) >= v);
            }
            return cost;
        }
        proof {
            lemma_falses(vis, k as int);
        }
        visited.set(k, true);
        let ghost vis2 = visited@;
        let ghost q2 = queue@;
        proof {
            assert(sc <= n - 1);
            assert(cost <= sc * m);
            assert(sc * m + m <= n * m) by (nonlinear_arith)
                requires
                    sc <= n - 1,
                    m >= 0,
            ;
        }
        let dir = dir_from(pd);
        let ns = neighbours(map, (py, px), dir, pc, min_straight, max_straight);
        let ghost mv = moves(cr.h, cr.w, py as int, px as int, dir, pc as int, cr.lo, cr.hi);
        let mut t: usize = 0;
        while t < ns.len()
            invariant
                0 <= t <= ns@.len(),
                ns@.len() == mv.len(),
                forall|i: int| 0 <= i < ns@.len() ==> ((#[trigger] ns@[i]).0.0 as int, ns@[i].0.1 as int, ns@[i].1) == mv[i],
                queue@.len() == q2.len() + t,
                forall|i: int| 0 <= i < q2.len() ==> #[trigger] queue@[i] == q2[i],
                forall|i: int| 0 <= i < t ==> pushed(#[trigger] queue@[q2.len() + i], ns@[i], cost as int, pd, pc, cr.rows),
            decreases ns@.len() - t,
        {
            let ((ny, nx), nd) = ns[t];
            proof {
                lemma_moves(cr.h, cr.w, py as int, px as int, dir, pc as int, cr.lo, cr.hi);
                assert(mv[t as int] == (ny as int, nx as int, nd));
                assert(0 <= ny < cr.h && 0 <= nx < cr.w);
            }
            let wt = heat_at(map, ny, nx);
            assert(wt <= m);
            let ni = dir_index(nd);
            let nc = if ni == pd { pc + 1 } else { 1 };
            queue.push((wt + cost, ny, nx, ni, nc));
            t += 1;
        }
        proof {
            lemma_settle(cr, q, vis, bi as int, queue@, vis2, ns@, sc, m);
            sc = sc + 1;
        }
    }
}

/// The search for a crucible from the top left to the bottom right block.
pub open spec fn corner_crucible(map: HeatMap, lo: usize, hi: usize) -> Crucible {
    crucible(map, (0, 0), ((heat_rows(map).len() - 1) as usize, (heat_width(map) - 1) as usize), lo, hi)
}

/// The least heat loss from the top left to the bottom right block for a
/// crucible that moves at most three blocks in a row.
pub fn part1(input: &HeatMap) -> (res: u32)
    requires
        heat_rows(*input).len() >= 1,
        heat_width(*input) >= 1,
        crucible_fits(corner_crucible(*input, 0, 3)),
    ensures
        res as int == least_heat_loss(corner_crucible(*input, 0, 3)),
{
    let (h, w) = heat_dim(input);
    dijkstra_constraints(input, (0, 0), (h - 1, w - 1), 0, 3)
}

/// As `part1`, for an ultra crucible that moves at least four and at most
/// ten blocks in a row.
pub fn part2(input: &HeatMap) -> (res: u32)
    requires
        heat_rows(*input).len() >= 1,
        heat_width(*input) >= 1,
        crucible_fits(corner_crucible(*input, 4, 10)),
    ensures
        res as int == least_heat_loss(corner_crucible(*input, 4, 10)),
{
    let (h, w) = heat_dim(input);
    dijkstra_constraints(input, (0, 0), (h - 1, w - 1), 4, 10)
}

} // verus!
