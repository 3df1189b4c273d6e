//! Point of incidence: the lines of reflection of patterns of ash and rocks,
//! with or without one smudge on the mirror.
use vstd::prelude::*;
use ndarray::{Array2, ShapeError};
use crate::arrays::{flatten, reshape};
use crate::grid::{lemma_rows_from_alpha, lemma_rows_from_progress, read_rows, rows_from};
use crate::text::{rows_view, ParseError};

verus! {

/// A pattern of ash (0) and rocks (1), held in an `ndarray` array.
#[verifier::external_body]
pub struct Pattern {
    data: Array2<u8>,
}

/// The tiles of a pattern, row by row.
pub uninterp spec fn pattern_rows(p: Pattern) -> Seq<Seq<u8>>;

/// The number of tiles in each row of a pattern.
pub uninterp spec fn pattern_width(p: Pattern) -> nat;

/// `Array2::from_shape_vec` with the shape `(h, w)`: it succeeds exactly
/// when `flat` holds `h * w` items and that count fits in an `isize`, and the
/// array then holds `flat` row after row.
#[verifier::external_body]
fn pattern_from_shape_vec(h: usize, w: usize, flat: Vec<u8>) -> (res: Result<Pattern, ShapeError>)
    requires
        h >= 1,
        w >= 1,
    ensures
        res is Ok <==> (h * w == flat@.len() && h * w <= isize::MAX),
        res matches Ok(p) ==> pattern_width(p) == w && pattern_rows(p) == reshape(flat@, h as int, w as int),
{
    match Array2::from_shape_vec((h, w), flat) {
        Ok(data) => Ok(Pattern { data }),
        Err(e) => Err(e),
    }
}

/// `ArrayBase::dim` on a pattern: its number of rows and of tiles per row.
#[verifier::external_body]
fn pattern_dim(p: &Pattern) -> (res: (usize, usize))
    ensures
        res.0 == pattern_rows(*p).len() && res.1 == pattern_width(*p) && forall|y: int|
            0 <= y < res.0 ==> (#[trigger] pattern_rows(*p)[y]).len() == res.1,
{
    p.data.dim()
}

/// Indexing a pattern by `(row, column)`.
#[verifier::external_body]
fn pattern_at(p: &Pattern, y: usize, x: usize) -> (res: u8)
    requires
        y < pattern_rows(*p).len(),
        x < pattern_width(*p),
    ensures
        res == pattern_rows(*p)[y as int][x as int],
{
    p.data[(y, x)]
}

pub open spec fn tile_alpha() -> Seq<u8> {
    seq![46u8, 35u8]
}

/// `.` is ash (0), `#` a rock (1).
pub open spec fn tile_value(c: u8) -> u8 {
    if c == 35u8 { 1 } else { 0 }
}

/// The patterns of `s` from position `i` on, each as its rows of `.` and
/// `#`: each pattern is one or more rows (see `rows_from`), and patterns are
/// separated by one more `\n`. Reading stops before anything else; what
/// follows is left unread.
pub open spec fn blocks_from(s: Seq<u8>, i: int) -> Seq<Seq<Seq<u8>>>
    decreases s.len() - i,
{
    if i < 0 || i > s.len() {
        Seq::empty()
    } else {
        let r = rows_from(s, i, tile_alpha());
        if r.0.len() == 0 {
            Seq::empty()
        } else if r.1 < s.len() && s[r.1] == 10u8 {
            proof {
                lemma_rows_from_progress(s, i, tile_alpha());
            }
            seq![r.0] + blocks_from(s, r.1 + 1)
        } else {
            seq![r.0]
        }
    }
}

/// The tiles of the rows of a pattern, row after row.
pub open spec fn block_tiles(rows: Seq<Seq<u8>>) -> Seq<u8> {
    flatten(rows).map_values(|c: u8| tile_value(c))
}

/// The rows of a block make up a rectangle of the first row's width.
pub open spec fn block_fits(rows: Seq<Seq<u8>>) -> bool {
    rows.len() * rows[0].len() == flatten(rows).len() && rows.len() * rows[0].len() <= isize::MAX
}

/// The pattern that a block of rows reads as.
pub open spec fn block_is(p: Pattern, rows: Seq<Seq<u8>>) -> bool {
    pattern_width(p) == rows[0].len() && pattern_rows(p) == reshape(block_tiles(rows), rows.len() as int, rows[0].len() as int)
}

/// Reads the patterns (see `blocks_from`); the reading itself never fails.
pub fn input_gen(input: &[u8]) -> (res: Result<Vec<Pattern>, ParseError>)
    requires
        forall|k: int| 0 <= k < blocks_from(input@, 0).len() ==> block_fits(#[trigger] blocks_from(input@, 0)[k]),
    ensures
        res matches Ok(v) && v@.len() == blocks_from(input@, 0).len() && forall|k: int|
            0 <= k < v@.len() ==> block_is(#[trigger] v@[k], blocks_from(input@, 0)[k]),
{
    let alpha: Vec<u8> = vec![46u8, 35u8];
    assert(alpha@ =~= tile_alpha());
    let ghost all = blocks_from(input@, 0);
    let mut out: Vec<Pattern> = Vec::new();
    let mut i: usize = 0;
    let mut more = true;
    while more
        invariant
            i <= input@.len(),
            alpha@ == tile_alpha(),
            all == blocks_from(input@, 0),
            forall|k: int| 0 <= k < all.len() ==> block_fits(#[trigger] all[k]),
            more ==> out@.len() + blocks_from(input@, i as int).len() == all.len()
                && forall|k: int| 0 <= k < blocks_from(input@, i as int).len() ==> #[trigger] blocks_from(input@, i as int)[k] == all[out@.len() + k],
            !more ==> out@.len() == all.len(),
            forall|k: int| 0 <= k < out@.len() ==> block_is(#[trigger] out@[k], all[k]),
        decreases input@.len() - i, if more { 1int } else { 0int },
    {
        let (rows, j) = read_rows(input, i, alpha.as_slice());
        let ghost rv = rows_view(rows@);
        proof {
            lemma_rows_from_progress(input@, i as int, tile_alpha());
            lemma_rows_from_alpha(input@, i as int, tile_alpha());
        }
        if rows.len() == 0 {
            more = false;
        } else {
            assert(blocks_from(input@, i as int)[0] == rv);
            let mut flat: Vec<u8> = Vec::new();
            let mut y: usize = 0;
            while y < rows.len()
                invariant
                    y <= rows@.len(),
                    rv == rows_view(rows@),
                    flat@ == block_tiles(rv.take(y as int)),
                decreases rows@.len() - y,
            {
                let ghost before = flat@;
                let mut x: usize = 0;
                while x < rows[y].len()
                    invariant
                        y < rows@.len(),
                        x <= rows@[y as int]@.len(),
                        flat@ == before + rows@[y as int]@.take(x as int).map_values(|c: u8| tile_value(c)),
                    decreases rows@[y as int]@.len() - x,
                {
                    let c = rows[y][x];
                    flat.push(if c == 35u8 { 1u8 } else { 0u8 });
                    assert(rows@[y as int]@.take(x + 1).map_values(|c: u8| tile_value(c))
                        =~= rows@[y as int]@.take(x as int).map_values(|c: u8| tile_value(c)).push(tile_value(c)));
                    x += 1;
                }
                proof {
                    assert(rows@[y as int]@.take(x as int) =~= rows@[y as int]@);
                    assert(rv[y as int] == rows@[y as int]@);
                    assert(rv.take(y + 1).drop_last() =~= rv.take(y as int));
                    assert(block_tiles(rv.take(y + 1)) =~= block_tiles(rv.take(y as int)) + rv[y as int].map_values(|c: u8| tile_value(c)));
                }
                y += 1;
            }
            assert(rv.take(rows@.len() as int) =~= rv);
            assert(rv[0] == rows@[0]@);
            let h = rows.len();
            let w = rows[0].len();
            assert(all[out@.len() as int] == rv);
            match pattern_from_shape_vec(h, w, flat) {
                Ok(p) => {
                    out.push(p);
                },
                Err(_) => {
                    assert(block_fits(all[out@.len() as int]));
                    assert(false);
                    return Err(ParseError::Syntax);
                },
            }
            if j < input.len() && input[j] == 10u8 {
                let ghost bi = blocks_from(input@, i as int);
                let ghost rest = blocks_from(input@, j + 1);
                assert(bi == seq![rv] + rest);
                assert forall|k: int| 0 <= k < rest.len() implies #[trigger] rest[k] == all[out@.len() + k] by {
                    assert(rest[k] == bi[k + 1]);
                }
                i = j + 1;
            } else {
                more = false;
            }
        }
    }
    Ok(out)
}


/// The number of lanes along `axis`: rows for axis 0, columns for axis 1.
pub open spec fn lane_count(p: Pattern, axis: int) -> int {
    if axis == 0 { pattern_rows(p).len() as int } else { pattern_width(p) as int }
}

/// The number of tiles in each lane along `axis`.
pub open spec fn lane_len(p: Pattern, axis: int) -> int {
    if axis == 0 { pattern_width(p) as int } else { pattern_rows(p).len() as int }
}

/// Tile `k` of lane `i` along `axis`.
pub open spec fn lane_tile(p: Pattern, axis: int, i: int, k: int) -> u8 {
    if axis == 0 { pattern_rows(p)[i][k] } else { pattern_rows(p)[k][i] }
}

/// The sum of the bitwise differences of the first `n` tiles of lanes `a`
/// and `b` (for tiles of 0 and 1: the number of tiles where they differ).
pub open spec fn lane_diff(p: Pattern, axis: int, a: int, b: int, n: nat) -> int
    decreases n,
{
    if n == 0 {
        0
    } else {
        lane_diff(p, axis, a, b, (n - 1) as nat) + (lane_tile(p, axis, a, n - 1) ^ lane_tile(p, axis, b, n - 1)) as int
    }
}

/// The differences of the first `n` pairs of lanes mirrored in the line
/// between lanes `i` and `i + 1`: lanes `i - t` and `i + 1 + t` for `t < n`.
pub open spec fn mirror_cost(p: Pattern, axis: int, i: int, n: nat) -> int
    decreases n,
{
    if n == 0 {
        0
    } else {
        mirror_cost(p, axis, i, (n - 1) as nat) + lane_diff(p, axis, i - (n - 1), i + n, lane_len(p, axis) as nat)
    }
}

/// The number of lane pairs that the line after lane `i` mirrors: as many as
/// there are lanes on its shorter side.
pub open spec fn mirror_pairs(p: Pattern, axis: int, i: int) -> nat {
    let after = lane_count(p, axis) - 1 - i;
    if i + 1 < after { (i + 1) as nat } else { after as nat }
}

/// The number of lanes before the first line of reflection, after lane `i`
/// or later, whose mirrored lanes differ by exactly `smudges`; 0 if none.
pub open spec fn first_mirror(p: Pattern, axis: int, smudges: int, i: int) -> int
    decreases lane_count(p, axis) - i,
{
    if i < 0 || i >= lane_count(p, axis) - 1 {
        0
    } else if mirror_cost(p, axis, i, mirror_pairs(p, axis, i)) == smudges {
        i + 1
    } else {
        first_mirror(p, axis, smudges, i + 1)
    }
}

/// The sums of differences of a search for `smudges` fit in a `u32`, and
/// line numbers in an `i64`.
pub open spec fn pattern_fits(p: Pattern, smudges: u32) -> bool {
    &&& pattern_rows(p).len() <= i64::MAX
    &&& pattern_width(p) <= i64::MAX
    &&& smudges + 255 * (pattern_rows(p).len() + pattern_width(p)) <= u32::MAX
}

proof fn lemma_lane_diff(p: Pattern, axis: int, a: int, b: int, n: nat)
    ensures
        0 <= lane_diff(p, axis, a, b, n) <= 255 * n,
    decreases n,
{
    if n > 0 {
        lemma_lane_diff(p, axis, a, b, (n - 1) as nat);
    }
}

proof fn lemma_mirror_mono(p: Pattern, axis: int, i: int, a: nat, b: nat)
    requires
        a <= b,
    ensures
        mirror_cost(p, axis, i, a) <= mirror_cost(p, axis, i, b),
    decreases b,
{
    if a < b {
        lemma_mirror_mono(p, axis, i, a, (b - 1) as nat);
        lemma_lane_diff(p, axis, i - (b - 1), i + b, lane_len(p, axis) as nat);
    }
}

proof fn lemma_first_mirror(p: Pattern, axis: int, smudges: int, i: int)
    requires
        i >= 0,
    ensures
        0 <= first_mirror(p, axis, smudges, i) <= lane_count(p, axis),
    decreases lane_count(p, axis) - i,
{
    if i < lane_count(p, axis) - 1 {
        lemma_first_mirror(p, axis, smudges, i + 1);
    }
}

proof fn lemma_lane_diff_zero(p: Pattern, axis: int, a: int, b: int, n: nat)
    ensures
        lane_diff(p, axis, a, b, n) == 0 <==> forall|k: int| 0 <= k < n
            ==> #[trigger] lane_tile(p, axis, a, k) == lane_tile(p, axis, b, k),
    decreases n,
{
    if n > 0 {
        lemma_lane_diff_zero(p, axis, a, b, (n - 1) as nat);
        lemma_lane_diff(p, axis, a, b, (n - 1) as nat);
        let x = lane_tile(p, axis, a, n - 1);
        let y = lane_tile(p, axis, b, n - 1);
        assert((x ^ y) == 0u8 <==> x == y) by (bit_vector);
        if lane_diff(p, axis, a, b, n) == 0 {
            assert forall|k: int| 0 <= k < n implies #[trigger] lane_tile(p, axis, a, k) == lane_tile(p, axis, b, k) by {
                if k < n - 1 {
                    assert(lane_tile(p, axis, a, k) == lane_tile(p, axis, b, k));
                }
            }
        }
        if forall|k: int| 0 <= k < n ==> #[trigger] lane_tile(p, axis, a, k) == lane_tile(p, axis, b, k) {
            assert(lane_tile(p, axis, a, n - 1) == lane_tile(p, axis, b, n - 1));
        }
    }
}

proof fn lemma_mirror_zero(p: Pattern, axis: int, i: int, n: nat)
    ensures
        mirror_cost(p, axis, i, n) == 0 <==> forall|t: int| 0 <= t < n
            ==> #[trigger] lane_diff(p, axis, i - t, i + 1 + t, lane_len(p, axis) as nat) == 0,
    decreases n,
{
    if n > 0 {
        lemma_mirror_zero(p, axis, i, (n - 1) as nat);
        lemma_mirror_mono(p, axis, i, 0, (n - 1) as nat);
        lemma_lane_diff(p, axis, i - (n - 1), i + n, lane_len(p, axis) as nat);
        assert(i + n == i + 1 + (n - 1));
        if mirror_cost(p, axis, i, n) == 0 {
            assert forall|t: int| 0 <= t < n implies
                #[trigger] lane_diff(p, axis, i - t, i + 1 + t, lane_len(p, axis) as nat) == 0 by {
                if t < n - 1 {
                    assert(lane_diff(p, axis, i - t, i + 1 + t, lane_len(p, axis) as nat) == 0);
                }
            }
        }
        if forall|t: int| 0 <= t < n ==> #[trigger] lane_diff(p, axis, i - t, i + 1 + t, lane_len(p, axis) as nat) == 0 {
            assert(lane_diff(p, axis, i - (n - 1), i + 1 + (n - 1), lane_len(p, axis) as nat) == 0);
        }
    }
}

/// The line between lanes `i` and `i + 1` is a perfect mirror: every lane
/// on one side that has a mirror image on the other side equals it.
pub open spec fn perfect_line(p: Pattern, axis: int, i: int) -> bool {
    forall|a: int, b: int, k: int|
        #![trigger lane_tile(p, axis, a, k), lane_tile(p, axis, b, k)]
        0 <= a <= i && i < b < lane_count(p, axis) && a + b == 2 * i + 1 && 0 <= k < lane_len(p, axis)
            ==> lane_tile(p, axis, a, k) == lane_tile(p, axis, b, k)
}

proof fn lemma_perfect_iff(p: Pattern, axis: int, i: int)
    requires
        0 <= i < lane_count(p, axis) - 1,
    ensures
        mirror_cost(p, axis, i, mirror_pairs(p, axis, i)) == 0 <==> perfect_line(p, axis, i),
{
    let n = mirror_pairs(p, axis, i);
    let len = lane_len(p, axis) as nat;
    lemma_mirror_zero(p, axis, i, n);
    assert forall|t: int| 0 <= t < n implies
        (#[trigger] lane_diff(p, axis, i - t, i + 1 + t, len) == 0 <==> forall|k: int| 0 <= k < len
            ==> #[trigger] lane_tile(p, axis, i - t, k) == lane_tile(p, axis, i + 1 + t, k)) by {
        lemma_lane_diff_zero(p, axis, i - t, i + 1 + t, len);
    }
    if mirror_cost(p, axis, i, n) == 0 {
        assert forall|a: int, b: int, k: int|
            #![trigger lane_tile(p, axis, a, k), lane_tile(p, axis, b, k)]
            0 <= a <= i && i < b < lane_count(p, axis) && a + b == 2 * i + 1 && 0 <= k < lane_len(p, axis)
            implies lane_tile(p, axis, a, k) == lane_tile(p, axis, b, k) by {
            let t = i - a;
            assert(b == i + 1 + t);
            assert(0 <= t < n);
            assert(lane_diff(p, axis, i - t, i + 1 + t, len) == 0);
        }
    }
    if perfect_line(p, axis, i) {
        assert forall|t: int| 0 <= t < n implies
            #[trigger] lane_diff(p, axis, i - t, i + 1 + t, len) == 0 by {
            assert forall|k: int| 0 <= k < len implies
                #[trigger] lane_tile(p, axis, i - t, k) == lane_tile(p, axis, i + 1 + t, k) by {
                assert((i - t) + (i + 1 + t) == 2 * i + 1);
            }
        }
    }
}

/// For perfect mirrors, the search from lane `j` finds the first line of
/// reflection at or after `j`: a result `r` above 0 means the line after
/// lane `r - 1` is a perfect mirror and no line between is; 0 means no line
/// from `j` on is one.
pub proof fn lemma_first_perfect(p: Pattern, axis: int, j: int)
    requires
        j >= 0,
    ensures
        first_mirror(p, axis, 0, j) > 0 ==> j < first_mirror(p, axis, 0, j) < lane_count(p, axis)
            && perfect_line(p, axis, first_mirror(p, axis, 0, j) - 1)
            && forall|i: int| j <= i < first_mirror(p, axis, 0, j) - 1 ==> !#[trigger] perfect_line(p, axis, i),
        first_mirror(p, axis, 0, j) == 0 ==> forall|i: int| j <= i < lane_count(p, axis) - 1
            ==> !#[trigger] perfect_line(p, axis, i),
    decreases lane_count(p, axis) - j,
{
    if j < lane_count(p, axis) - 1 {
        lemma_perfect_iff(p, axis, j);
        lemma_first_perfect(p, axis, j + 1);
    }
}

/// The bitwise differences of the first `n` tiles of lanes `a` and `b`.
fn lane_diff_exec(m: &Pattern, axis: usize, a: usize, b: usize, n: usize) -> (res: u32)
    requires
        axis < 2,
        a < lane_count(*m, axis as int),
        b < lane_count(*m, axis as int),
        n <= lane_len(*m, axis as int),
        255 * n <= u32::MAX,
    ensures
        res == lane_diff(*m, axis as int, a as int, b as int, n as nat),
{
    let (h, w) = pattern_dim(m);
    let mut sum: u32 = 0;
    let mut k: usize = 0;
    while k < n
        invariant
            k <= n,
            n <= lane_len(*m, axis as int),
            255 * n <= u32::MAX,
            axis < 2,
            a < lane_count(*m, axis as int),
            b < lane_count(*m, axis as int),
            h == pattern_rows(*m).len(),
            w == pattern_width(*m),
            sum == lane_diff(*m, axis as int, a as int, b as int, k as nat),
        decreases n - k,
    {
        proof {
            lemma_lane_diff(*m, axis as int, a as int, b as int, k as nat);
        }
        let (ta, tb) = if axis == 0 {
            (pattern_at(m, a, k), pattern_at(m, b, k))
        } else {
            (pattern_at(m, k, a), pattern_at(m, k, b))
        };
        let x = ta ^ tb;
        sum = sum + x as u32;
        k += 1;
    }
    sum
}

/// The number of lanes along `axis` (columns for 1, rows for 0) before the
/// first line of reflection whose mirrored lanes differ in exactly `smudges`
/// tiles (see `first_mirror`); 0 if there is none. A candidate is given up
/// as soon as its differences exceed `smudges`.
pub fn find_lane_reflection(m: &Pattern, axis: usize, smudges: u32) -> (res: i64)
    requires
        axis < 2,
        pattern_fits(*m, smudges),
    ensures
        res == first_mirror(*m, axis as int, smudges as int, 0),
        smudges == 0 && res > 0 ==> perfect_line(*m, axis as int, res - 1)
            && forall|i: int| 0 <= i < res - 1 ==> !#[trigger] perfect_line(*m, axis as int, i),
        smudges == 0 && res == 0 ==> forall|i: int| 0 <= i < lane_count(*m, axis as int) - 1
            ==> !#[trigger] perfect_line(*m, axis as int, i),
{
    proof {
        lemma_first_perfect(*m, axis as int, 0);
    }
    let (h, w) = pattern_dim(m);
    let len = if axis == 0 { h } else { w };
    let n = if axis == 0 { w } else { h };
    let mut i: usize = 0;
    while i + 1 < len
        invariant
            axis < 2,
            pattern_fits(*m, smudges),
            len == lane_count(*m, axis as int),
            n == lane_len(*m, axis as int),
            i <= len,
            first_mirror(*m, axis as int, smudges as int, 0) == first_mirror(*m, axis as int, smudges as int, i as int),
        decreases len - i,
    {
        let mut cur: u32 = 0;
        let mut t: usize = 0;
        let mut over = false;
        while !over && t <= i && i + 1 + t < len
            invariant
                axis < 2,
                pattern_fits(*m, smudges),
                len == lane_count(*m, axis as int),
                n == lane_len(*m, axis as int),
                i + 1 < len,
                t <= mirror_pairs(*m, axis as int, i as int),
                !over ==> cur == mirror_cost(*m, axis as int, i as int, t as nat) && cur <= smudges,
                over ==> mirror_cost(*m, axis as int, i as int, mirror_pairs(*m, axis as int, i as int)) > smudges,
            decreases mirror_pairs(*m, axis as int, i as int) - t, if over { 0int } else { 1int },
        {
            proof {
                lemma_lane_diff(*m, axis as int, (i - t) as int, (i + 1 + t) as int, n as nat);
            }
            let diff = lane_diff_exec(m, axis, i - t, i + 1 + t, n);
            let next = cur + diff;
            if next > smudges {
                proof {
                    lemma_mirror_mono(*m, axis as int, i as int, (t + 1) as nat, mirror_pairs(*m, axis as int, i as int));
                }
                over = true;
            } else {
                cur = next;
                t += 1;
            }
        }
        if !over && cur == smudges {
            proof {
                lemma_first_perfect(*m, axis as int, 0);
            }
            return (i + 1) as i64;
        }
        i += 1;
    }
    0
}

/// The note of a pattern: the columns left of its line of reflection, or
/// else 100 times the rows above it (0 if it has neither).
pub open spec fn note(p: Pattern, smudges: u32) -> int {
    let c = first_mirror(p, 1, smudges as int, 0);
    if c == 0 { first_mirror(p, 0, smudges as int, 0) * 100 } else { c }
}

/// The sum of the notes of the first `n` patterns.
pub open spec fn notes(ps: Seq<Pattern>, smudges: u32, n: int) -> int
    decreases n,
{
    if n <= 0 { 0 } else { notes(ps, smudges, n - 1) + note(ps[n - 1], smudges) }
}

proof fn lemma_notes_mono(ps: Seq<Pattern>, smudges: u32, a: int, b: int)
    requires
        0 <= a <= b,
    ensures
        0 <= notes(ps, smudges, a) <= notes(ps, smudges, b),
    decreases b,
{
    if b > 0 {
        if a < b {
            lemma_notes_mono(ps, smudges, a, b - 1);
        }
        lemma_first_mirror(ps[b - 1], 1, smudges as int, 0);
        lemma_first_mirror(ps[b - 1], 0, smudges as int, 0);
        if a == b {
            lemma_notes_mono(ps, smudges, 0, b - 1);
        }
    }
}

fn summarize(input: &[Pattern], smudges: u32) -> (res: i64)
    requires
        forall|k: int| 0 <= k < input@.len() ==> pattern_fits(#[trigger] input@[k], smudges),
        notes(input@, smudges, input@.len() as int) <= i64::MAX,
    ensures
        res == notes(input@, smudges, input@.len() as int),
{
    let mut res: i64 = 0;
    let mut k: usize = 0;
    while k < input.len()
        invariant
            k <= input@.len(),
            forall|k: int| 0 <= k < input@.len() ==> pattern_fits(#[trigger] input@[k], smudges),
            notes(input@, smudges, input@.len() as int) <= i64::MAX,
            res == notes(input@, smudges, k as int),
        decreases input@.len() - k,
    {
        proof {
            lemma_notes_mono(input@, smudges, (k + 1) as int, input@.len() as int);
            lemma_notes_mono(input@, smudges, k as int, k as int);
            lemma_first_mirror(input@[k as int], 1, smudges as int, 0);
            lemma_first_mirror(input@[k as int], 0, smudges as int, 0);
        }
        let m = &input[k];
        let mut i = find_lane_reflection(m, 1, smudges);
        if i == 0 {
            i = find_lane_reflection(m, 0, smudges) * 100;
        }
        res += i;
        k += 1;
    }
    res
}

/// The sum of the notes of the patterns, for perfect mirrors.
pub fn part1(input: &[Pattern]) -> (res: i64)
    requires
        forall|k: int| 0 <= k < input@.len() ==> pattern_fits(#[trigger] input@[k], 0),
        notes(input@, 0, input@.len() as int) <= i64::MAX,
    ensures
        res == notes(input@, 0, input@.len() as int),
{
    summarize(input, 0)
}

/// The sum of the notes of the patterns, for mirrors with exactly one smudge.
pub fn part2(input: &[Pattern]) -> (res: i64)
    requires
        forall|k: int| 0 <= k < input@.len() ==> pattern_fits(#[trigger] input@[k], 1),
        notes(input@, 1, input@.len() as int) <= i64::MAX,
    ensures
        res == notes(input@, 1, input@.len() as int),
{
    summarize(input, 1)
}

} // verus!
