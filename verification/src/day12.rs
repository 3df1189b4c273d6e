//! Hot springs: counting the arrangements of damaged springs that fit the records.
use vstd::prelude::*;
use crate::text;
use crate::grid;
use crate::text::{scan_u64, ParseError};

verus! {

/// The state of a spring in a record.
#[derive(Debug, Clone, Copy, PartialEq, Eq, Structural)]
pub enum Tile {
    Working,
    Broken,
    Unknown,
}

/// One record: the springs, and the sizes of the groups of damaged springs.
#[derive(Debug, Clone)]
pub struct Row {
    pub tiles: Vec<Tile>,
    pub groups: Vec<i64>,
}

/// All the records.
#[derive(Debug, Clone)]
pub struct Records {
    pub data: Vec<Row>,
}

/// A record as plain sequences.
pub type RowV = (Seq<Tile>, Seq<i64>);

pub open spec fn row_view(r: Row) -> RowV {
    (r.tiles@, r.groups@)
}

pub open spec fn map_view(m: Records) -> Seq<RowV> {
    m.data@.map_values(|r: Row| row_view(r))
}

pub open spec fn tile_of(c: u8) -> Tile {
    if c == 46u8 { Tile::Working } else if c == 35u8 { Tile::Broken } else { Tile::Unknown }
}

pub open spec fn tile_bytes() -> Seq<u8> {
    seq![46u8, 35, 63]
}

/// A number without superfluous leading zeros starting at `i`, and the position after it;
/// `None` when there is none or it exceeds `i64::MAX`.
pub open spec fn unsigned_at(s: Seq<u8>, i: int) -> Option<(i64, int)> {
    if 0 <= i < s.len() && 49u8 <= s[i] <= 57u8 {
        let r = text::digit_run(s, i);
        let v = text::digits_value(s.subrange(i, i + r));
        if v <= i64::MAX { Some((v as i64, i + r)) } else { None }
    } else if 0 <= i < s.len() && s[i] == 48u8 {
        Some((0, i + 1))
    } else {
        None
    }
}

/// The further numbers of a comma separated list, read from `i`, and the position after them.
pub open spec fn list_tail(s: Seq<u8>, i: int) -> (Seq<i64>, int)
    decreases s.len() - i,
{
    if 0 <= i < s.len() && s[i] == 44u8 {
        match unsigned_at(s, i + 1) {
            Some((v, e)) => if e > i && e <= s.len() {
                let r = list_tail(s, e);
                (seq![v] + r.0, r.1)
            } else {
                (Seq::empty(), i)
            },
            None => (Seq::empty(), i),
        }
    } else {
        (Seq::empty(), i)
    }
}

/// The record that starts at `i`, and the position after its line.
pub open spec fn row_at(s: Seq<u8>, i: int) -> Option<(RowV, int)> {
    let k = grid::tile_run(s, i, tile_bytes());
    if k == 0 || i + k >= s.len() || s[i + k] != 32u8 {
        None
    } else {
        match unsigned_at(s, i + k + 1) {
            Some((v, e)) => {
                let tail = list_tail(s, e);
                let row = (s.subrange(i, i + k).map_values(|c: u8| tile_of(c)), seq![v] + tail.0);
                if tail.1 == s.len() {
                    Some((row, tail.1))
                } else if 0 <= tail.1 < s.len() && s[tail.1] == 10u8 {
                    Some((row, tail.1 + 1))
                } else {
                    None
                }
            },
            None => None,
        }
    }
}

/// The records read from `i` on, stopping before the first line that is no record.
pub open spec fn rows_at(s: Seq<u8>, i: int) -> Seq<RowV>
    decreases s.len() - i,
{
    if i < 0 || i >= s.len() {
        Seq::empty()
    } else {
        match row_at(s, i) {
            Some((r, e)) => if e > i { seq![r] + rows_at(s, e) } else { Seq::empty() },
            None => Seq::empty(),
        }
    }
}

proof fn lemma_unsigned_at(s: Seq<u8>, i: int)
    ensures
        unsigned_at(s, i) matches Some((v, e)) ==> i < e <= s.len() && v >= 0,
{
    if 0 <= i < s.len() && 49u8 <= s[i] <= 57u8 {
        text::lemma_digit_run(s, i);
    }
}

fn read_unsigned(s: &[u8], i: usize) -> (res: Option<(i64, usize)>)
    requires
        i <= s.len(),
    ensures
        match res {
            Some((v, e)) => unsigned_at(s@, i as int) == Some((v, e as int)),
            None => unsigned_at(s@, i as int) is None,
        },
{
    if i < s.len() && 49u8 <= s[i] && s[i] <= 57u8 {
        let (e, v) = scan_u64(s, i);
        match v {
            Some(n) if n <= 0x7fff_ffff_ffff_ffffu64 => Some((n as i64, e)),
            _ => None,
        }
    } else if i < s.len() && s[i] == 48u8 {
        Some((0, i + 1))
    } else {
        None
    }
}

fn read_row(s: &[u8], i: usize) -> (res: Option<(Row, usize)>)
    requires
        i <= s.len(),
    ensures
        match res {
            Some((r, e)) => row_at(s@, i as int) == Some((row_view(r), e as int)),
            None => row_at(s@, i as int) is None,
        },
{
    proof { grid::lemma_tile_run(s@, i as int, tile_bytes()); }
    let ghost k = grid::tile_run(s@, i as int, tile_bytes());
    let mut j = i;
    let mut tiles: Vec<Tile> = Vec::new();
    while j < s.len() && (s[j] == 46u8 || s[j] == 35u8 || s[j] == 63u8)
        invariant
            i <= j <= i + k,
            i + k <= s.len(),
            k == grid::tile_run(s@, i as int, tile_bytes()),
            forall|m: int| i <= m < i + k ==> tile_bytes().contains(#[trigger] s@[m]),
            i + k < s.len() ==> !tile_bytes().contains(s@[i + k]),
            tiles@ == s@.subrange(i as int, j as int).map_values(|c: u8| tile_of(c)),
        decreases s.len() - j,
    {
        let t = if s[j] == 46u8 { Tile::Working } else if s[j] == 35u8 { Tile::Broken } else { Tile::Unknown };
        tiles.push(t);
        assert(tiles@ =~= s@.subrange(i as int, j + 1).map_values(|c: u8| tile_of(c)));
        j += 1;
    }
    proof {
        if j < s.len() {
            assert(!tile_bytes().contains(s@[j as int]) <== !(s@[j as int] == 46u8 || s@[j as int] == 35u8 || s@[j as int] == 63u8));
            if s@[j as int] == 46u8 || s@[j as int] == 35u8 || s@[j as int] == 63u8 {
                assert(tile_bytes()[0] == 46u8 && tile_bytes()[1] == 35u8 && tile_bytes()[2] == 63u8);
                assert(tile_bytes().contains(s@[j as int]));
            }
        }
    }
    assert(j == i + k);
    if j == i || j >= s.len() || s[j] != 32u8 {
        return None;
    }
    let (first, mut e) = match read_unsigned(s, j + 1) {
        Some(p) => p,
        None => { return None; },
    };
    proof { lemma_unsigned_at(s@, j + 1); }
    let ghost e0 = e;
    let mut groups: Vec<i64> = vec![first];
    let mut more = true;
    while more && e < s.len() && s[e] == 44u8
        invariant
            e0 <= e <= s.len(),
            !more ==> list_tail(s@, e as int) == (Seq::<i64>::empty(), e as int),
            groups@.len() >= 1,
            groups@[0] == first,
            seq![first] + list_tail(s@, e0 as int).0 == groups@ + list_tail(s@, e as int).0,
            list_tail(s@, e0 as int).1 == list_tail(s@, e as int).1,
        decreases s.len() - e, if more { 1int } else { 0int },
    {
        proof { lemma_unsigned_at(s@, e + 1); }
        match read_unsigned(s, e + 1) {
            Some((v, e2)) => {
                let ghost before = groups@;
                groups.push(v);
                assert(before + (seq![v] + list_tail(s@, e2 as int).0) =~= groups@ + list_tail(s@, e2 as int).0);
                e = e2;
            },
            None => { more = false; },
        }
    }
    assert(list_tail(s@, e as int) == (Seq::<i64>::empty(), e as int));
    assert(groups@ + Seq::<i64>::empty() =~= groups@);
    let row = Row { tiles, groups };
    if e == s.len() {
        Some((row, e))
    } else if s[e] == 10u8 {
        Some((row, e + 1))
    } else {
        None
    }
}

/// The records that a condition report holds, or `None` when not even one line is a record.
pub open spec fn spec_map(s: Seq<u8>) -> Option<Seq<RowV>> {
    let rows = rows_at(s, 0);
    if rows.len() == 0 { None } else { Some(rows) }
}

/// Reads a condition report; fails with `Syntax` where `spec_map` is `None`.
pub fn input_gen(input: &[u8]) -> (res: Result<Records, ParseError>)
    ensures
        match res {
            Ok(m) => spec_map(input@) == Some(map_view(m)),
            Err(e) => e == ParseError::Syntax && spec_map(input@) is None,
        },
{
    let mut data: Vec<Row> = Vec::new();
    let mut i: usize = 0;
    let mut stop = false;
    while !stop && i < input.len()
        invariant
            i <= input@.len(),
            stop ==> rows_at(input@, i as int) == Seq::<RowV>::empty(),
            rows_at(input@, 0) == data@.map_values(|r: Row| row_view(r)) + rows_at(input@, i as int),
        decreases input@.len() - i, if stop { 0int } else { 1int },
    {
        match read_row(input, i) {
            Some((r, e)) => {
                if e <= i {
                    stop = true;
                    continue;
                }
                let ghost before = data@.map_values(|r: Row| row_view(r));
                data.push(r);
                assert(data@.map_values(|r: Row| row_view(r)) =~= before.push(row_view(r)));
                assert(before + (seq![row_view(r)] + rows_at(input@, e as int))
                    =~= data@.map_values(|r: Row| row_view(r)) + rows_at(input@, e as int));
                i = e;
            },
            None => { stop = true; },
        }
    }
    assert(rows_at(input@, 0) =~= data@.map_values(|r: Row| row_view(r)));
    if data.len() == 0 {
        return Err(ParseError::Syntax);
    }
    let m = Records { data };
    assert(map_view(m) =~= rows_at(input@, 0));
    Ok(m)
}

/// The size of group `g`, or 0 past the last group.
pub open spec fn group_at(groups: Seq<i64>, g: int) -> int {
    if 0 <= g < groups.len() { groups[g] as int } else { 0 }
}

/// The number of ways to finish reading `tiles` from position `i`, when the
/// groups before `g` are complete and the current run of damaged springs has
/// length `st`: each unknown spring may be operational or damaged, and the
/// runs of damaged springs must match the remaining groups.
pub open spec fn count(tiles: Seq<Tile>, groups: Seq<i64>, i: int, g: int, st: int) -> int
    decreases tiles.len() - i, 1int,
{
    if i < 0 || i >= tiles.len() {
        if g >= groups.len() { 1 } else { 0 }
    } else {
        match tiles[i] {
            Tile::Working => count_ok(tiles, groups, i, g, st),
            Tile::Broken => count_broken(tiles, groups, i, g, st),
            Tile::Unknown => count_ok(tiles, groups, i, g, st) + count_broken(tiles, groups, i, g, st),
        }
    }
}

/// `count` when the spring at `i` is operational.
pub open spec fn count_ok(tiles: Seq<Tile>, groups: Seq<i64>, i: int, g: int, st: int) -> int
    decreases tiles.len() - i, 0int,
{
    if i < 0 || i >= tiles.len() {
        0
    } else if st != 0 {
        if st == group_at(groups, g) { count(tiles, groups, i + 1, g + 1, 0) } else { 0 }
    } else {
        count(tiles, groups, i + 1, g, 0)
    }
}

/// `count` when the spring at `i` is damaged.
pub open spec fn count_broken(tiles: Seq<Tile>, groups: Seq<i64>, i: int, g: int, st: int) -> int
    decreases tiles.len() - i, 0int,
{
    if i < 0 || i >= tiles.len() || g >= groups.len() || st + 1 > group_at(groups, g) {
        0
    } else {
        count(tiles, groups, i + 1, g, st + 1)
    }
}

pub proof fn lemma_count_nonneg(tiles: Seq<Tile>, groups: Seq<i64>, i: int, g: int, st: int)
    ensures
        count(tiles, groups, i, g, st) >= 0,
        count_ok(tiles, groups, i, g, st) >= 0,
        count_broken(tiles, groups, i, g, st) >= 0,
    decreases tiles.len() - i,
{
    if 0 <= i < tiles.len() {
        lemma_count_nonneg(tiles, groups, i + 1, g + 1, 0);
        lemma_count_nonneg(tiles, groups, i + 1, g, 0);
        lemma_count_nonneg(tiles, groups, i + 1, g, st + 1);
    }
}

/// The memo table of `search`: entry `(i * (m + 1) + g) * (n + 1) + st` holds
/// `count(.., i, g, st)` once computed and -1 before.
pub open spec fn memo_ok(memo: Seq<i64>, tiles: Seq<Tile>, groups: Seq<i64>) -> bool {
    let n = tiles.len() as int;
    let m = groups.len() as int;
    &&& memo.len() == (n + 1) * (m + 1) * (n + 1)
    &&& forall|i: int, g: int, st: int| 0 <= i <= n && 0 <= g <= m && 0 <= st <= n
        && #[trigger] memo[(i * (m + 1) + g) * (n + 1) + st] != -1
        ==> memo[(i * (m + 1) + g) * (n + 1) + st] == count(tiles, groups, i, g, st)
}

proof fn lemma_index_bounds(n: int, m: int, i: int, g: int, st: int)
    requires
        0 <= i <= n, 0 <= g <= m, 0 <= st <= n,
    ensures
        0 <= (i * (m + 1) + g) * (n + 1) + st < (n + 1) * (m + 1) * (n + 1),
{
    assert(0 <= i * (m + 1)) by (nonlinear_arith) requires 0 <= i, 0 <= m;
    assert(i * (m + 1) + g <= n * (m + 1) + m) by (nonlinear_arith) requires 0 <= i <= n, 0 <= g <= m;
    assert(n * (m + 1) + m + 1 == (n + 1) * (m + 1)) by (nonlinear_arith);
    let a = i * (m + 1) + g;
    assert(0 <= a * (n + 1)) by (nonlinear_arith) requires 0 <= a, 0 <= n;
    assert(a * (n + 1) + st <= (a + 1) * (n + 1) - 1) by (nonlinear_arith) requires 0 <= st <= n;
    assert((a + 1) * (n + 1) <= (n + 1) * (m + 1) * (n + 1)) by (nonlinear_arith)
        requires a + 1 <= (n + 1) * (m + 1), 0 <= n;
}

proof fn lemma_index_unique(n: int, m: int, i1: int, g1: int, s1: int, i2: int, g2: int, s2: int)
    requires
        0 <= i1 <= n, 0 <= g1 <= m, 0 <= s1 <= n,
        0 <= i2 <= n, 0 <= g2 <= m, 0 <= s2 <= n,
        (i1 * (m + 1) + g1) * (n + 1) + s1 == (i2 * (m + 1) + g2) * (n + 1) + s2,
    ensures
        i1 == i2 && g1 == g2 && s1 == s2,
{
    let a1 = i1 * (m + 1) + g1;
    let a2 = i2 * (m + 1) + g2;
    assert(a1 == a2 && s1 == s2) by (nonlinear_arith)
        requires a1 * (n + 1) + s1 == a2 * (n + 1) + s2, 0 <= s1 <= n, 0 <= s2 <= n, 0 <= a1, 0 <= a2;
    assert(i1 == i2 && g1 == g2) by (nonlinear_arith)
        requires i1 * (m + 1) + g1 == i2 * (m + 1) + g2, 0 <= g1 <= m, 0 <= g2 <= m, 0 <= i1, 0 <= i2;
}

/// Counts the arrangements from state `(i, g, st)` (see `count`), recording
/// every value it computes in `memo`.
pub fn search(tiles: &Vec<Tile>, groups: &Vec<i64>, i: usize, g: usize, st: usize, memo: &mut Vec<i64>) -> (res: i64)
    requires
        i <= tiles@.len(),
        g <= groups@.len(),
        st <= i,
        forall|k: int| 0 <= k < groups@.len() ==> groups@[k] >= 0,
        (tiles@.len() + 1) * (groups@.len() + 1) * (tiles@.len() + 1) <= usize::MAX,
        memo_ok(old(memo)@, tiles@, groups@),
        count(tiles@, groups@, i as int, g as int, st as int) <= i64::MAX,
    ensures
        memo_ok(final(memo)@, tiles@, groups@),
        res == count(tiles@, groups@, i as int, g as int, st as int),
        final(memo)@[(i * (groups@.len() + 1) + g) * (tiles@.len() + 1) + st] == res,
    decreases tiles@.len() - i,
{
    let n = tiles.len();
    let m = groups.len();
    let ghost tv = tiles@;
    let ghost gv = groups@;
    proof {
        lemma_index_bounds(n as int, m as int, i as int, g as int, st as int);
        lemma_count_nonneg(tv, gv, i as int, g as int, st as int);
        let (ni, mi) = (n as int, m as int);
        assert((ni + 1) * (mi + 1) * (ni + 1) >= (ni + 1) * (ni + 1) && (ni + 1) * (mi + 1) * (ni + 1) >= mi + 1 && (ni + 1) * (ni + 1) >= ni + 1)
            by (nonlinear_arith) requires ni >= 0, mi >= 0;
        assert(ni + 1 <= 0x1_0000_0000) by (nonlinear_arith)
            requires (ni + 1) * (ni + 1) <= 0xffff_ffff_ffff_ffff, ni >= 0;
        assert(0 <= i * (m + 1) <= i * (m + 1) + g) by (nonlinear_arith) requires 0 <= i, 0 <= m, 0 <= g;
        assert((i * (m + 1) + g) * (n + 1) <= (i * (m + 1) + g) * (n + 1) + st) by (nonlinear_arith)
            requires 0 <= i, 0 <= m, 0 <= g, 0 <= n, 0 <= st;
        assert(i * (m + 1) + g <= (i * (m + 1) + g) * (n + 1)) by (nonlinear_arith)
            requires 0 <= i, 0 <= m, 0 <= g, 0 <= n;
    }
    let idx = (i * (m + 1) + g) * (n + 1) + st;
    if memo[idx] != -1 {
        proof { lemma_index_bounds(n as int, m as int, i as int, g as int, st as int); }
        return memo[idx];
    }
    let res: i64 = if i == n {
        if g >= m { 1 } else { 0 }
    } else {
        let t = tiles[i];
        let ghost total = count(tv, gv, i as int, g as int, st as int);
        proof {
            lemma_count_nonneg(tv, gv, i as int, g as int, st as int);
            if t != Tile::Broken {
                assert(total >= count_ok(tv, gv, i as int, g as int, st as int));
            }
            if t != Tile::Working {
                assert(total >= count_broken(tv, gv, i as int, g as int, st as int));
            }
        }
        let ok_part: i64 = if t == Tile::Broken {
            0
        } else if st != 0 {
            let grp = if g < m { groups[g] } else { 0 };
            if st as i64 == grp {
                search(tiles, groups, i + 1, g + 1, 0, memo)
            } else {
                0
            }
        } else {
            search(tiles, groups, i + 1, g, 0, memo)
        };
        assert(t != Tile::Broken ==> ok_part == count_ok(tv, gv, i as int, g as int, st as int));
        let broken_part: i64 = if t == Tile::Working {
            0
        } else if g >= m {
            0
        } else if st as i64 + 1 > groups[g] {
            0
        } else {
            search(tiles, groups, i + 1, g, st + 1, memo)
        };
        assert(t != Tile::Working ==> broken_part == count_broken(tv, gv, i as int, g as int, st as int));
        ok_part + broken_part
    };
    assert(res == count(tv, gv, i as int, g as int, st as int));
    proof { lemma_index_bounds(n as int, m as int, i as int, g as int, st as int); }
    let ghost before = memo@;
    memo.set(idx, res);
    proof {
        assert forall|a: int, b: int, c: int| 0 <= a <= n && 0 <= b <= m && 0 <= c <= n
            && #[trigger] memo@[(a * (m + 1) + b) * (n + 1) + c] != -1
            implies memo@[(a * (m + 1) + b) * (n + 1) + c] == count(tv, gv, a, b, c) by {
            lemma_index_bounds(n as int, m as int, a, b, c);
            if (a * (m + 1) + b) * (n + 1) + c == idx {
                lemma_index_unique(n as int, m as int, a, b, c, i as int, g as int, st as int);
            } else {
                assert(memo@[(a * (m + 1) + b) * (n + 1) + c] == before[(a * (m + 1) + b) * (n + 1) + c]);
            }
        }
    }
    res
}

/// The number of arrangements of one record, read with an operational spring appended.
pub open spec fn row_count(r: RowV) -> int {
    count(r.0.push(Tile::Working), r.1, 0, 0, 0)
}

/// The sum of the arrangement counts of the records.
pub open spec fn sum_counts(rows: Seq<RowV>) -> int
    decreases rows.len(),
{
    if rows.len() == 0 { 0 } else { sum_counts(rows.drop_last()) + row_count(rows.last()) }
}

/// What `do_search` needs of a record: group sizes are not negative and the
/// memo table of its state space fits in memory.
pub open spec fn searchable(r: RowV) -> bool {
    &&& forall|k: int| 0 <= k < r.1.len() ==> r.1[k] >= 0
    &&& (r.0.len() + 2) * (r.1.len() + 1) * (r.0.len() + 2) <= usize::MAX
}

proof fn lemma_sum_counts_prefix(rows: Seq<RowV>, i: int)
    requires
        0 <= i <= rows.len(),
    ensures
        0 <= sum_counts(rows.take(i)) <= sum_counts(rows),
    decreases rows.len() - i,
{
    if i < rows.len() {
        lemma_sum_counts_prefix(rows, i + 1);
        assert(rows.take(i + 1).drop_last() =~= rows.take(i));
        lemma_count_nonneg(rows[i].0.push(Tile::Working), rows[i].1, 0, 0, 0);
    } else {
        assert(rows.take(i) =~= rows);
    }
    lemma_sum_counts_nonneg(rows.take(i));
}

proof fn lemma_sum_counts_nonneg(rows: Seq<RowV>)
    ensures
        0 <= sum_counts(rows),
    decreases rows.len(),
{
    if rows.len() > 0 {
        lemma_sum_counts_nonneg(rows.drop_last());
        lemma_count_nonneg(rows.last().0.push(Tile::Working), rows.last().1, 0, 0, 0);
    }
}

fn count_row(row: &Row) -> (res: i64)
    requires
        searchable(row_view(*row)),
        row_count(row_view(*row)) <= i64::MAX,
    ensures
        res == row_count(row_view(*row)),
{
    let mut tiles = row.tiles.clone();
    assert(tiles@ =~= row.tiles@);
    tiles.push(Tile::Working);
    let n = tiles.len();
    let m = row.groups.len();
    assert(n + 1 <= (n + 1) * (m + 1) && (n + 1) * (m + 1) <= (n + 1) * (m + 1) * (n + 1)
        && m + 1 <= (n + 1) * (m + 1)) by (nonlinear_arith)
        requires n >= 0, m >= 0;
    let size = (n + 1) * (m + 1) * (n + 1);
    let mut memo: Vec<i64> = Vec::new();
    while memo.len() < size
        invariant
            memo@.len() <= size,
            forall|k: int| 0 <= k < memo@.len() ==> memo@[k] == -1,
        decreases size - memo@.len(),
    {
        memo.push(-1);
    }
    assert forall|a: int, b: int, c: int| 0 <= a <= n && 0 <= b <= m && 0 <= c <= n
        && #[trigger] memo@[(a * (m + 1) + b) * (n + 1) + c] != -1
        implies memo@[(a * (m + 1) + b) * (n + 1) + c] == count(tiles@, row.groups@, a, b, c) by {
        lemma_index_bounds(n as int, m as int, a, b, c);
    }
    search(&tiles, &row.groups, 0, 0, 0, &mut memo)
}

/// `m` damaged springs in a row.
pub open spec fn trues(m: int) -> Seq<bool> {
    Seq::new(m as nat, |k: int| true)
}

/// The lengths of the runs of damaged springs (`true`) in `a`, in order.
pub open spec fn runs(a: Seq<bool>) -> Seq<int>
    decreases a.len(),
{
    if a.len() == 0 {
        Seq::empty()
    } else if !a.last() {
        runs(a.drop_last())
    } else if a.len() >= 2 && a[a.len() - 2] {
        let r = runs(a.drop_last());
        r.update(r.len() - 1, r.last() + 1)
    } else {
        runs(a.drop_last()).push(1)
    }
}

proof fn lemma_runs_nonempty(a: Seq<bool>)
    requires
        a.len() > 0,
        a.last(),
    ensures
        runs(a).len() > 0,
    decreases a.len(),
{
    if a.len() >= 2 && a[a.len() - 2] {
        lemma_runs_nonempty(a.drop_last());
    }
}

/// After a healthy spring the runs start afresh.
proof fn lemma_runs_concat(p: Seq<bool>, b: Seq<bool>)
    requires
        p.len() == 0 || !p.last(),
    ensures
        runs(p + b) == runs(p) + runs(b),
    decreases b.len(),
{
    if b.len() == 0 {
        assert(p + b =~= p);
        assert(runs(p) + runs(b) =~= runs(p));
    } else {
        let c = p + b.drop_last();
        lemma_runs_concat(p, b.drop_last());
        assert((p + b).drop_last() =~= c);
        assert((p + b).last() == b.last());
        if b.last() {
            let n = (p + b).len();
            if b.len() >= 2 {
                assert((p + b)[n - 2] == b[b.len() - 2]);
                if b[b.len() - 2] {
                    lemma_runs_nonempty(b.drop_last());
                    let rp = runs(p);
                    let rb = runs(b.drop_last());
                    assert((rp + rb).update((rp + rb).len() - 1, (rp + rb).last() + 1) =~= rp + rb.update(rb.len() - 1, rb.last() + 1));
                } else {
                    assert((runs(p) + runs(b.drop_last())).push(1) =~= runs(p) + runs(b.drop_last()).push(1));
                }
            } else {
                if n >= 2 {
                    assert((p + b)[n - 2] == p.last());
                }
                assert((runs(p) + runs(b.drop_last())).push(1) =~= runs(p) + runs(b.drop_last()).push(1));
            }
        }
    }
}

proof fn lemma_runs_trues(m: int)
    requires
        m >= 1,
    ensures
        runs(trues(m)) == seq![m],
    decreases m,
{
    assert(trues(m).drop_last() =~= trues(m - 1));
    assert(trues(m).last());
    if m >= 2 {
        lemma_runs_trues(m - 1);
        assert(trues(m)[m - 2]);
        assert(seq![m - 1].update(0, m) =~= seq![m]);
    } else {
        assert(trues(0) =~= Seq::<bool>::empty());
        assert(runs(trues(0)) =~= Seq::<int>::empty());
        assert(Seq::<int>::empty().push(1) =~= seq![1int]);
    }
}

/// A row that starts with `m` damaged springs has a first run of at least
/// `m`.
proof fn lemma_runs_first(m: int, b: Seq<bool>)
    requires
        m >= 1,
    ensures
        runs(trues(m) + b).len() > 0,
        runs(trues(m) + b)[0] >= m,
    decreases b.len(),
{
    if b.len() == 0 {
        assert(trues(m) + b =~= trues(m));
        lemma_runs_trues(m);
    } else {
        lemma_runs_first(m, b.drop_last());
        let a = trues(m) + b;
        assert(a.drop_last() =~= trues(m) + b.drop_last());
    }
}

/// A healthy spring after `st` damaged ones closes their run.
proof fn lemma_runs_close(st: int, b: Seq<bool>)
    requires
        st >= 0,
    ensures
        runs(trues(st) + (seq![false] + b)) == (if st > 0 { seq![st] } else { Seq::<int>::empty() }) + runs(b),
{
    let p = trues(st).push(false);
    assert(trues(st) + (seq![false] + b) =~= p + b);
    lemma_runs_concat(p, b);
    assert(p.drop_last() =~= trues(st));
    assert(!p.last());
    assert(runs(p) == runs(trues(st)));
    if st > 0 {
        lemma_runs_trues(st);
    } else {
        assert(trues(st) =~= Seq::<bool>::empty());
        assert(runs(trues(st)) =~= Seq::<int>::empty());
        assert(Seq::<int>::empty() + runs(b) =~= runs(b));
    }
}

/// `b` agrees with the springs of `tiles` from `i` on: an operational one
/// is `false`, a damaged one `true`, an unknown one either.
pub open spec fn fits_from(tiles: Seq<Tile>, i: int, b: Seq<bool>) -> bool {
    &&& b.len() == tiles.len() - i
    &&& forall|k: int| 0 <= k < b.len() ==> (tiles[i + k] == Tile::Working ==> !#[trigger] b[k])
        && (tiles[i + k] == Tile::Broken ==> b[k])
}

/// The group sizes as integers.
pub open spec fn sizes(groups: Seq<i64>) -> Seq<int> {
    groups.map_values(|x: i64| x as int)
}

/// The arrangements of a record: the states of all its springs that agree
/// with the known ones and whose runs of damaged springs are its groups.
pub open spec fn arrangements(tiles: Seq<Tile>, groups: Seq<i64>) -> Set<Seq<bool>> {
    Set::new(|a: Seq<bool>| fits_from(tiles, 0, a) && runs(a) == sizes(groups))
}

/// The ways to finish from position `i`, after the groups before `g` and a
/// run of `st` damaged springs: the rest agrees with the record, and the
/// open run followed by the rest has the groups from `g` on as its runs.
pub open spec fn endings(tiles: Seq<Tile>, groups: Seq<i64>, i: int, g: int, st: int) -> Set<Seq<bool>> {
    Set::new(|b: Seq<bool>| fits_from(tiles, i, b) && runs(trues(st) + b) == sizes(groups).skip(g))
}

pub open spec fn cons(x: bool) -> spec_fn(Seq<bool>) -> Seq<bool> {
    |b: Seq<bool>| seq![x] + b
}

proof fn lemma_cons_size(x: bool, s: Set<Seq<bool>>)
    requires
        s.finite(),
    ensures
        s.map(cons(x)).finite(),
        s.map(cons(x)).len() == s.len(),
{
    assert(vstd::relations::injective_on(cons(x), s)) by {
        assert forall|a: Seq<bool>, b: Seq<bool>| s.contains(a) && s.contains(b) && #[trigger] cons(x)(a) == #[trigger] cons(x)(b) implies a == b by {
            assert(a =~= cons(x)(a).drop_first());
            assert(b =~= cons(x)(b).drop_first());
        }
    }
    vstd::set_lib::lemma_map_size(s, s.map(cons(x)), cons(x));
}

/// `count` is the number of ways to finish: the arrangement count of the
/// state `(i, g, st)`.
#[verifier::rlimit(60)]
pub proof fn lemma_endings(tiles: Seq<Tile>, groups: Seq<i64>, i: int, g: int, st: int)
    requires
        tiles.len() >= 1,
        tiles.last() == Tile::Working,
        0 <= i <= tiles.len(),
        0 <= g <= groups.len(),
        st >= 0,
        i == tiles.len() ==> st == 0,
    ensures
        endings(tiles, groups, i, g, st).finite(),
        endings(tiles, groups, i, g, st).len() == count(tiles, groups, i, g, st),
    decreases tiles.len() - i,
{
    let n = tiles.len() as int;
    let gs = sizes(groups);
    let e = endings(tiles, groups, i, g, st);
    if i == n {
        assert(trues(0) =~= Seq::<bool>::empty());
        assert forall|b: Seq<bool>| #[trigger] e.contains(b) implies b == Seq::<bool>::empty() by {
            assert(b =~= Seq::<bool>::empty());
        }
        assert(runs(trues(0) + Seq::<bool>::empty()) =~= Seq::<int>::empty()) by {
            assert(trues(0) + Seq::<bool>::empty() =~= Seq::<bool>::empty());
        }
        if g == groups.len() {
            assert(gs.skip(g) =~= Seq::<int>::empty());
            assert(e.contains(Seq::<bool>::empty()));
            assert(e =~= set![Seq::<bool>::empty()]);
        } else {
            assert(gs.skip(g).len() > 0);
            assert(e =~= Set::<Seq<bool>>::empty());
        }
    } else {
        let t = tiles[i];
        let ok = if st != 0 {
            if st == group_at(groups, g) { endings(tiles, groups, i + 1, g + 1, 0) } else { Set::<Seq<bool>>::empty() }
        } else {
            endings(tiles, groups, i + 1, g, 0)
        };
        let br = if g >= groups.len() || st + 1 > group_at(groups, g) {
            Set::<Seq<bool>>::empty()
        } else {
            endings(tiles, groups, i + 1, g, st + 1)
        };
        let oks = if t != Tile::Broken { ok.map(cons(false)) } else { Set::<Seq<bool>>::empty() };
        let brs = if t != Tile::Working { br.map(cons(true)) } else { Set::<Seq<bool>>::empty() };
        // the sizes of the two parts
        if st != 0 {
            if st == group_at(groups, g) {
                lemma_endings(tiles, groups, i + 1, g + 1, 0);
            }
        } else {
            lemma_endings(tiles, groups, i + 1, g, 0);
        }
        if t != Tile::Working && !(g >= groups.len() || st + 1 > group_at(groups, g)) {
            assert(i + 1 < n);
            lemma_endings(tiles, groups, i + 1, g, st + 1);
        }
        assert(ok.finite() && ok.len() == count_ok(tiles, groups, i, g, st));
        assert(t != Tile::Working ==> br.finite() && br.len() == count_broken(tiles, groups, i, g, st));
        if t != Tile::Broken {
            lemma_cons_size(false, ok);
        }
        if t != Tile::Working {
            lemma_cons_size(true, br);
        }
        // every ending starts with a healthy or a damaged spring
        assert forall|b: Seq<bool>| #[trigger] e.contains(b) implies (oks + brs).contains(b) by {
            let b1 = b.drop_first();
            assert(b =~= seq![b[0]] + b1);
            assert(fits_from(tiles, i + 1, b1)) by {
                assert forall|k: int| 0 <= k < b1.len() implies (tiles[i + 1 + k] == Tile::Working ==> !#[trigger] b1[k])
                    && (tiles[i + 1 + k] == Tile::Broken ==> b1[k]) by {
                    assert(b1[k] == b[k + 1]);
                }
            }
            if !b[0] {
                assert(t != Tile::Broken);
                lemma_runs_close(st, b1);
                if st > 0 {
                    assert(seq![st] + runs(b1) == gs.skip(g));
                    assert(gs.skip(g)[0] == st);
                    assert(g < groups.len());
                    assert(runs(b1) =~= gs.skip(g + 1)) by {
                        assert(runs(b1) =~= (seq![st] + runs(b1)).drop_first());
                    }
                    assert(trues(0) + b1 =~= b1);
                    assert(ok.contains(b1));
                } else {
                    assert(Seq::<int>::empty() + runs(b1) =~= runs(b1));
                    assert(trues(0) + b1 =~= b1);
                    assert(ok.contains(b1));
                }
                assert(cons(false)(b1) == b);
                assert(oks.contains(b));
            } else {
                assert(t != Tile::Working);
                assert(trues(st) + b =~= trues(st + 1) + b1);
                lemma_runs_first(st + 1, b1);
                assert(gs.skip(g).len() > 0);
                assert(g < groups.len());
                assert(gs.skip(g)[0] == gs[g]);
                assert(br.contains(b1));
                assert(cons(true)(b1) == b);
                assert(brs.contains(b));
            }
        }
        assert forall|b: Seq<bool>| #[trigger] (oks + brs).contains(b) implies e.contains(b) by {
            if oks.contains(b) {
                let b1 = choose|b1: Seq<bool>| ok.contains(b1) && cons(false)(b1) == b;
                assert(b =~= seq![false] + b1);
                assert(fits_from(tiles, i, b)) by {
                    assert forall|k: int| 0 <= k < b.len() implies (tiles[i + k] == Tile::Working ==> !#[trigger] b[k])
                        && (tiles[i + k] == Tile::Broken ==> b[k]) by {
                        if k > 0 {
                            assert(b[k] == b1[k - 1]);
                            assert(tiles[i + 1 + (k - 1)] == tiles[i + k]);
                        }
                    }
                }
                lemma_runs_close(st, b1);
                assert(trues(0) + b1 =~= b1);
                if st > 0 {
                    assert(gs.skip(g) =~= seq![st] + gs.skip(g + 1));
                } else {
                    assert(Seq::<int>::empty() + runs(b1) =~= runs(b1));
                }
            } else {
                assert(brs.contains(b));
                let b1 = choose|b1: Seq<bool>| br.contains(b1) && cons(true)(b1) == b;
                assert(b =~= seq![true] + b1);
                assert(fits_from(tiles, i, b)) by {
                    assert forall|k: int| 0 <= k < b.len() implies (tiles[i + k] == Tile::Working ==> !#[trigger] b[k])
                        && (tiles[i + k] == Tile::Broken ==> b[k]) by {
                        if k > 0 {
                            assert(b[k] == b1[k - 1]);
                            assert(tiles[i + 1 + (k - 1)] == tiles[i + k]);
                        }
                    }
                }
                assert(trues(st) + b =~= trues(st + 1) + b1);
            }
        }
        assert(e =~= oks + brs);
        assert(oks.disjoint(brs)) by {
            assert forall|b: Seq<bool>| oks.contains(b) implies !brs.contains(b) by {
                if brs.contains(b) {
                    let x = choose|b1: Seq<bool>| ok.contains(b1) && cons(false)(b1) == b;
                    let y = choose|b1: Seq<bool>| br.contains(b1) && cons(true)(b1) == b;
                    assert(cons(false)(x)[0] != cons(true)(y)[0]);
                }
            }
        }
        vstd::set_lib::lemma_set_disjoint_lens(oks, brs);
        lemma_count_nonneg(tiles, groups, i, g, st);
    }
}

/// The arrangement count of a record is the number of its arrangements:
/// of the ways to give each unknown spring a state so that the runs of
/// damaged springs are exactly the record's groups, in order.
pub proof fn lemma_row_count(r: RowV)
    ensures
        arrangements(r.0, r.1).finite(),
        row_count(r) == arrangements(r.0, r.1).len(),
{
    let tiles = r.0;
    let t2 = tiles.push(Tile::Working);
    let gs = sizes(r.1);
    lemma_endings(t2, r.1, 0, 0, 0);
    let e = endings(t2, r.1, 0, 0, 0);
    let arr = arrangements(tiles, r.1);
    let f = |b: Seq<bool>| b.drop_last();
    assert(gs.skip(0) =~= gs);
    assert forall|b: Seq<bool>| e.contains(b) implies b.len() == tiles.len() + 1 && !b.last()
        && fits_from(tiles, 0, b.drop_last()) && runs(b) == runs(b.drop_last()) && runs(b) == gs by {
        assert(trues(0) + b =~= b);
        assert(!b[tiles.len() as int]);
        assert forall|k: int| 0 <= k < b.drop_last().len() implies (tiles[k] == Tile::Working ==> !#[trigger] b.drop_last()[k])
            && (tiles[k] == Tile::Broken ==> b.drop_last()[k]) by {
            assert(t2[0 + k] == tiles[k]);
        }
    }
    assert forall|a: Seq<bool>| #[trigger] arr.contains(a) implies e.map(f).contains(a) by {
        let b = a.push(false);
        assert(b.drop_last() =~= a);
        assert(trues(0) + b =~= b);
        assert(fits_from(t2, 0, b)) by {
            assert forall|k: int| 0 <= k < b.len() implies (t2[0 + k] == Tile::Working ==> !#[trigger] b[k])
                && (t2[0 + k] == Tile::Broken ==> b[k]) by {
                if k < a.len() {
                    assert(b[k] == a[k] && t2[k] == tiles[0 + k]);
                }
            }
        }
        assert(e.contains(b));
        assert(f(b) == a);
    }
    assert forall|a: Seq<bool>| #[trigger] e.map(f).contains(a) implies arr.contains(a) by {
        let b = choose|b: Seq<bool>| e.contains(b) && f(b) == a;
    }
    assert(e.map(f) =~= arr);
    assert(vstd::relations::injective_on(f, e)) by {
        assert forall|x: Seq<bool>, y: Seq<bool>| e.contains(x) && e.contains(y) && #[trigger] f(x) == #[trigger] f(y) implies x == y by {
            assert(x =~= f(x).push(false));
            assert(y =~= f(y).push(false));
        }
    }
    vstd::set_lib::lemma_map_size(e, arr, f);
}

/// The sum, over the records, of their numbers of arrangements.
pub fn do_search(input: Records) -> (res: i64)
    requires
        forall|k: int| 0 <= k < input.data@.len() ==> searchable(#[trigger] map_view(input)[k]),
        sum_counts(map_view(input)) <= i64::MAX,
    ensures
        res == sum_counts(map_view(input)),
{
    let ghost rows = map_view(input);
    let mut ret: i64 = 0;
    let mut i: usize = 0;
    assert(rows.take(0) =~= Seq::<RowV>::empty());
    while i < input.data.len()
        invariant
            i <= input.data@.len(),
            rows == map_view(input),
            forall|k: int| 0 <= k < input.data@.len() ==> searchable(#[trigger] rows[k]),
            sum_counts(rows) <= i64::MAX,
            ret == sum_counts(rows.take(i as int)),
        decreases input.data@.len() - i,
    {
        assert(rows.take(i + 1).drop_last() =~= rows.take(i as int));
        assert(rows[i as int] == row_view(input.data@[i as int]));
        proof {
            lemma_sum_counts_prefix(rows, i + 1);
            lemma_sum_counts_nonneg(rows.take(i as int));
        }
        let c = count_row(&input.data[i]);
        ret = ret + c;
        i += 1;
    }
    assert(rows.take(input.data@.len() as int) =~= rows);
    ret
}

fn copy_records(input: &Records) -> (res: Records)
    ensures
        map_view(res) == map_view(*input),
{
    let mut data: Vec<Row> = Vec::new();
    let mut i: usize = 0;
    while i < input.data.len()
        invariant
            i <= input.data@.len(),
            data@.len() == i,
            forall|k: int| 0 <= k < i ==> row_view(#[trigger] data@[k]) == row_view(input.data@[k]),
        decreases input.data@.len() - i,
    {
        let tiles = input.data[i].tiles.clone();
        let groups = input.data[i].groups.clone();
        assert(tiles@ =~= input.data@[i as int].tiles@);
        assert(groups@ =~= input.data@[i as int].groups@);
        data.push(Row { tiles, groups });
        i += 1;
    }
    let res = Records { data };
    assert(map_view(res) =~= map_view(*input));
    res
}

/// The number of arrangements summed over the records as written.
pub fn part1(input: &Records) -> (res: i64)
    requires
        forall|k: int| 0 <= k < input.data@.len() ==> searchable(#[trigger] map_view(*input)[k]),
        sum_counts(map_view(*input)) <= i64::MAX,
    ensures
        res == sum_counts(map_view(*input)),
{
    let m = copy_records(input);
    do_search(m)
}

/// `s` written `k` times in a row.
pub open spec fn repeat<T>(s: Seq<T>, k: nat) -> Seq<T>
    decreases k,
{
    if k == 0 { Seq::empty() } else { repeat(s, (k - 1) as nat) + s }
}

/// A record unfolded: the springs five times, separated by unknown springs,
/// and the groups five times.
pub open spec fn unfold(r: RowV) -> RowV {
    (r.0 + repeat(seq![Tile::Unknown] + r.0, 4), r.1 + repeat(r.1, 4))
}

/// The number of arrangements summed over the unfolded records.
pub fn part2(input: &Records) -> (res: i64)
    requires
        forall|k: int| 0 <= k < input.data@.len() ==> searchable(#[trigger] unfold(map_view(*input)[k])),
        sum_counts(map_view(*input).map_values(|r: RowV| unfold(r))) <= i64::MAX,
    ensures
        res == sum_counts(map_view(*input).map_values(|r: RowV| unfold(r))),
{
    let mut data: Vec<Row> = Vec::new();
    let mut i: usize = 0;
    while i < input.data.len()
        invariant
            i <= input.data@.len(),
            data@.len() == i,
            forall|k: int| 0 <= k < i ==> row_view(#[trigger] data@[k]) == unfold(map_view(*input)[k]),
        decreases input.data@.len() - i,
    {
        let row = &input.data[i];
        let mut tiles: Vec<Tile> = Vec::new();
        let mut groups: Vec<i64> = Vec::new();
        let mut rep: usize = 0;
        while rep < 5
            invariant
                rep <= 5,
                rep > 0 ==> tiles@ == row.tiles@ + repeat(seq![Tile::Unknown] + row.tiles@, (rep - 1) as nat),
                rep == 0 ==> tiles@.len() == 0,
                groups@ == repeat(row.groups@, rep as nat),
            decreases 5 - rep,
        {
            let ghost before = tiles@;
            let ghost gbefore = groups@;
            if rep > 0 {
                tiles.push(Tile::Unknown);
            }
            let mut j: usize = 0;
            while j < row.tiles.len()
                invariant
                    j <= row.tiles@.len(),
                    rep > 0 ==> tiles@ == before + seq![Tile::Unknown] + row.tiles@.take(j as int),
                    rep == 0 ==> tiles@ == row.tiles@.take(j as int),
                decreases row.tiles@.len() - j,
            {
                tiles.push(row.tiles[j]);
                assert(row.tiles@.take(j + 1) =~= row.tiles@.take(j as int).push(row.tiles@[j as int]));
                j += 1;
            }
            assert(row.tiles@.take(row.tiles@.len() as int) =~= row.tiles@);
            let mut j: usize = 0;
            while j < row.groups.len()
                invariant
                    j <= row.groups@.len(),
                    groups@ == gbefore + row.groups@.take(j as int),
                decreases row.groups@.len() - j,
            {
                groups.push(row.groups[j]);
                assert(row.groups@.take(j + 1) =~= row.groups@.take(j as int).push(row.groups@[j as int]));
                j += 1;
            }
            assert(row.groups@.take(row.groups@.len() as int) =~= row.groups@);
            proof {
                if rep > 0 {
                    assert(tiles@ =~= row.tiles@ + repeat(seq![Tile::Unknown] + row.tiles@, rep as nat));
                } else {
                    assert(tiles@ =~= row.tiles@ + repeat(seq![Tile::Unknown] + row.tiles@, 0));
                }
                assert(groups@ =~= repeat(row.groups@, (rep + 1) as nat));
            }
            rep += 1;
        }
        assert(groups@ =~= row.groups@ + repeat(row.groups@, 4)) by {
            assert(repeat(row.groups@, 5) == repeat(row.groups@, 4) + row.groups@);
            assert(repeat(row.groups@, 0) =~= Seq::<i64>::empty());
            assert(repeat(row.groups@, 1) =~= row.groups@);
            lemma_repeat_rotate(row.groups@, 4);
        }
        assert(map_view(*input)[i as int] == row_view(input.data@[i as int]));
        data.push(Row { tiles, groups });
        i += 1;
    }
    let m = Records { data };
    assert(map_view(m) =~= map_view(*input).map_values(|r: RowV| unfold(r)));
    do_search(m)
}

proof fn lemma_repeat_rotate<T>(s: Seq<T>, k: nat)
    ensures
        repeat(s, k) + s =~= s + repeat(s, k),
    decreases k,
{
    if k > 0 {
        lemma_repeat_rotate(s, (k - 1) as nat);
        assert(repeat(s, k) + s =~= (repeat(s, (k - 1) as nat) + s) + s);
        assert(s + repeat(s, k) =~= (s + repeat(s, (k - 1) as nat)) + s);
    }
}

} // verus!
