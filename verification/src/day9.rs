//! Mirage maintenance: extrapolating sequences by their differences.
use vstd::prelude::*;
use crate::text;
use crate::text::{scan_u64, ParseError};

verus! {

/// The readings of the report, one list per line.
#[derive(Debug, Clone, PartialEq, Eq)]
pub struct Readings {
    pub lines: Vec<Vec<i64>>,
}

pub open spec fn byte_is(s: Seq<u8>, i: int, c: u8) -> bool {
    0 <= i < s.len() && s[i] == c
}

/// An integer at `i`: an optional `-`, then `0` or a nonzero digit followed
/// by digits; its value must fit in an `i64`.
pub open spec fn p_int(s: Seq<u8>, i: int) -> Option<(i64, int)> {
    let neg = byte_is(s, i, 45u8);
    let j = if neg { i + 1 } else { i };
    if byte_is(s, j, 48u8) {
        Some((0i64, j + 1))
    } else if 0 <= j < s.len() && 49u8 <= s[j] <= 57u8 {
        let r = 1 + text::digit_run(s, j + 1);
        let v = text::digits_value(s.subrange(j, j + r));
        let sv: int = if neg { -v } else { v as int };
        if i64::MIN <= sv <= i64::MAX { Some((sv as i64, j + r)) } else { None }
    } else {
        None
    }
}

pub proof fn lemma_p_int(s: Seq<u8>, i: int)
    ensures
        p_int(s, i) matches Some((v, j)) ==> i < j <= s.len(),
{
    let neg = byte_is(s, i, 45u8);
    let j = if neg { i + 1 } else { i };
    if 0 <= j < s.len() && 49u8 <= s[j] <= 57u8 {
        text::lemma_digit_run(s, j + 1);
    }
}

/// More integers, each after a space, from `j` on.
pub open spec fn p_more(s: Seq<u8>, j: int) -> (Seq<i64>, int)
    decreases s.len() - j,
{
    if byte_is(s, j, 32u8) {
        match p_int(s, j + 1) {
            Some((v, k)) => if j < k <= s.len() {
                let r = p_more(s, k);
                (seq![v] + r.0, r.1)
            } else {
                (Seq::empty(), j)
            },
            None => (Seq::empty(), j),
        }
    } else {
        (Seq::empty(), j)
    }
}

/// A line at `i`: integers separated by single spaces, possibly none.
pub open spec fn p_line(s: Seq<u8>, i: int) -> (Seq<i64>, int) {
    match p_int(s, i) {
        Some((v, j)) => {
            let r = p_more(s, j);
            (seq![v] + r.0, r.1)
        },
        None => (Seq::empty(), i),
    }
}

pub proof fn lemma_p_more(s: Seq<u8>, j: int)
    ensures
        j <= p_more(s, j).1,
        0 <= j <= s.len() ==> p_more(s, j).1 <= s.len(),
    decreases s.len() - j,
{
    if byte_is(s, j, 32u8) {
        lemma_p_int(s, j + 1);
        if let Some((v, k)) = p_int(s, j + 1) {
            if j < k <= s.len() {
                lemma_p_more(s, k);
            }
        }
    }
}

pub proof fn lemma_p_line(s: Seq<u8>, i: int)
    ensures
        i <= p_line(s, i).1,
        0 <= i <= s.len() ==> p_line(s, i).1 <= s.len(),
{
    lemma_p_int(s, i);
    if let Some((v, j)) = p_int(s, i) {
        lemma_p_more(s, j);
    }
}

/// More lines, each after a newline, from `j` on.
pub open spec fn p_lines_more(s: Seq<u8>, j: int) -> (Seq<Seq<i64>>, int)
    decreases s.len() - j,
{
    if byte_is(s, j, 10u8) {
        let (l, k) = p_line(s, j + 1);
        if j < k <= s.len() {
            let r = p_lines_more(s, k);
            (seq![l] + r.0, r.1)
        } else {
            (Seq::empty(), j)
        }
    } else {
        (Seq::empty(), j)
    }
}

/// The readings that `s` holds: lines of integers separated by single
/// spaces, lines separated by newlines, and nothing else. A newline at the
/// end makes an empty last line.
pub open spec fn spec_readings(s: Seq<u8>) -> Option<Seq<Seq<i64>>> {
    let (l, j) = p_line(s, 0);
    let (r, k) = p_lines_more(s, j);
    if k == s.len() { Some(seq![l] + r) } else { None }
}

/// Whether `s` holds `c` at position `i`.
pub fn at(s: &[u8], i: usize, c: u8) -> (res: bool)
    ensures
        res == byte_is(s@, i as int, c),
{
    i < s.len() && s[i] == c
}

/// Reads an integer at `i` (see `p_int`): its value and the position after it.
pub fn read_int(s: &[u8], i: usize) -> (res: Option<(i64, usize)>)
    requires
        i <= s.len(),
    ensures
        match res {
            Some((v, j)) => p_int(s@, i as int) == Some((v, j as int)),
            None => p_int(s@, i as int) is None,
        },
{
    let neg = at(s, i, 45u8);
    let j = if neg { i + 1 } else { i };
    if at(s, j, 48u8) {
        return Some((0, j + 1));
    }
    if j < s.len() && 49u8 <= s[j] && s[j] <= 57u8 {
        proof { text::lemma_digit_run(s@, j + 1); }
        let (e, v) = scan_u64(s, j);
        assert(e == j + 1 + text::digit_run(s@, j + 1)) by {
            assert(text::digit_run(s@, j as int) == 1 + text::digit_run(s@, j + 1));
        }
        match v {
            Some(v) => {
                if neg {
                    if v <= 0x8000_0000_0000_0000u64 {
                        let r: i64 = if v == 0x8000_0000_0000_0000u64 { i64::MIN } else { -(v as i64) };
                        Some((r, e))
                    } else {
                        None
                    }
                } else if v <= 0x7fff_ffff_ffff_ffffu64 {
                    Some((v as i64, e))
                } else {
                    None
                }
            },
            None => None,
        }
    } else {
        None
    }
}

fn read_line(s: &[u8], i: usize) -> (res: (Vec<i64>, usize))
    requires
        i <= s.len(),
    ensures
        (res.0@, res.1 as int) == p_line(s@, i as int),
{
    let mut out: Vec<i64> = Vec::new();
    proof { lemma_p_int(s@, i as int); }
    let (v, mut j) = match read_int(s, i) {
        Some(r) => r,
        None => {
            return (out, i);
        },
    };
    out.push(v);
    let ghost total = p_line(s@, i as int);
    loop
        invariant
            j <= s.len(),
            total == p_line(s@, i as int),
            total == (out@ + p_more(s@, j as int).0, p_more(s@, j as int).1),
        decreases s.len() - j,
    {
        let ghost before = out@;
        if !at(s, j, 32u8) {
            assert(before + Seq::<i64>::empty() =~= before);
            return (out, j);
        }
        proof { lemma_p_int(s@, j + 1); }
        match read_int(s, j + 1) {
            Some((v, k)) => {
                out.push(v);
                proof {
                    let r = p_more(s@, k as int);
                    assert(before + (seq![v] + r.0) =~= out@ + r.0);
                }
                j = k;
            },
            None => {
                assert(before + Seq::<i64>::empty() =~= before);
                return (out, j);
            },
        }
    }
}

/// Reads the readings (see `spec_readings`).
#[verifier::loop_isolation(false)]
pub fn input_gen(input: &[u8]) -> (res: Result<Readings, ParseError>)
    ensures
        match res {
            Ok(r) => spec_readings(input@) == Some(r.lines@.map_values(|l: Vec<i64>| l@)),
            Err(e) => e == ParseError::Syntax && spec_readings(input@) is None,
        },
{
    let s = input;
    let (first, mut j) = read_line(s, 0);
    proof { lemma_p_line(s@, 0); }
    let mut lines: Vec<Vec<i64>> = Vec::new();
    lines.push(first);
    let ghost total = p_lines_more(s@, j as int);
    let ghost j0 = j;
    loop
        invariant
            j0 <= j <= s.len(),
            lines@.len() >= 1,
            total == p_lines_more(s@, j0 as int),
            (lines@.map_values(|l: Vec<i64>| l@).drop_first() + p_lines_more(s@, j as int).0, p_lines_more(s@, j as int).1) == total,
            lines@[0]@ == p_line(s@, 0).0,
            j0 == p_line(s@, 0).1,
        decreases s.len() - j,
    {
        let ghost before = lines@.map_values(|l: Vec<i64>| l@);
        if !at(s, j, 10u8) {
            assert(before.drop_first() + Seq::<Seq<i64>>::empty() =~= before.drop_first());
            break;
        }
        proof { lemma_p_line(s@, j + 1); }
        let (l, k) = read_line(s, j + 1);
        let ghost lv = l@;
        lines.push(l);
        proof {
            assert(lines@.map_values(|l: Vec<i64>| l@) =~= before.push(lv));
            let r = p_lines_more(s@, k as int);
            assert(before.drop_first() + (seq![lv] + r.0) =~= before.push(lv).drop_first() + r.0);
        }
        j = k;
    }
    if j != s.len() {
        return Err(ParseError::Syntax);
    }
    proof {
        let lv = lines@.map_values(|l: Vec<i64>| l@);
        assert(lv =~= seq![lv[0]] + lv.drop_first());
    }
    Ok(Readings { lines })
}


pub open spec fn ints(r: Seq<i64>) -> Seq<int> {
    r.map_values(|x: i64| x as int)
}

/// The differences of neighbouring values of `r`.
pub open spec fn diff(r: Seq<int>) -> Seq<int> {
    if r.len() == 0 {
        Seq::empty()
    } else {
        Seq::new((r.len() - 1) as nat, |i: int| r[i + 1] - r[i])
    }
}

pub open spec fn has_nonzero(r: Seq<int>) -> bool {
    exists|i: int| 0 <= i < r.len() && r[i] != 0
}

/// The rows of differences: `r`, its differences, theirs, and so on, up to
/// the first row without a nonzero value.
pub open spec fn tree(r: Seq<int>) -> Seq<Seq<int>>
    decreases r.len(),
{
    if r.len() > 0 && has_nonzero(r) {
        seq![r] + tree(diff(r))
    } else {
        seq![r]
    }
}

/// The sum of the last values of the first `n` rows.
pub open spec fn lasts_sum(t: Seq<Seq<int>>, n: int) -> int
    decreases n,
{
    if n <= 0 {
        0
    } else {
        lasts_sum(t, n - 1) + t[n - 1].last()
    }
}

/// The next value of `r`, extrapolated from its rows of differences.
pub open spec fn extrap(r: Seq<int>) -> int {
    lasts_sum(tree(r), tree(r).len() as int)
}

pub open spec fn in_i64(v: int) -> bool {
    i64::MIN <= v <= i64::MAX
}

/// The rows of differences of `r` have a last value each, hold only values
/// that fit in an `i64`, and so do the running sums of their last values.
pub open spec fn extrap_ok(r: Seq<int>) -> bool {
    let t = tree(r);
    &&& forall|k: int| 0 <= k < t.len() ==> (#[trigger] t[k]).len() > 0
    &&& forall|k: int, i: int| 0 <= k < t.len() && 0 <= i < t[k].len() ==> in_i64(#[trigger] t[k][i])
    &&& forall|n: int| 0 <= n <= t.len() ==> in_i64(#[trigger] lasts_sum(t, n))
}

pub proof fn lemma_tree(r: Seq<int>)
    ensures
        tree(r).len() >= 1,
        tree(r)[0] == r,
        r.len() > 0 && has_nonzero(r) ==> forall|k: int| 0 <= k < tree(diff(r)).len() ==> #[trigger] tree(r)[k + 1] == tree(diff(r))[k],
        r.len() > 0 && has_nonzero(r) ==> tree(r).len() == tree(diff(r)).len() + 1,
    decreases r.len(),
{
}

/// Readings that grow by the same step `b` from `a` continue by that step:
/// the next value of `a, a + b, ..., a + (n-1) b` is `a + n b` (at least
/// three readings are needed where the step is not 0, for the differences
/// to reach a row of zeros).
pub proof fn lemma_extrap_linear(r: Seq<int>, a: int, b: int)
    requires
        r.len() >= 2,
        b == 0 || r.len() >= 3,
        forall|i: int| 0 <= i < r.len() ==> #[trigger] r[i] == a + b * i,
    ensures
        extrap(r) == a + b * r.len(),
{
    let n = r.len() as int;
    let d = diff(r);
    assert forall|i: int| 0 <= i < d.len() implies #[trigger] d[i] == b by {
        assert(r[i + 1] == a + b * (i + 1));
        assert(r[i] == a + b * i);
        assert(b * (i + 1) == b * i + b) by (nonlinear_arith);
    }
    assert(r.last() == r[n - 1]);
    assert(b * n == b * (n - 1) + b) by (nonlinear_arith);
    lemma_tree(r);
    if !has_nonzero(r) {
        assert(r[0] == 0 && r[1] == 0);
        assert(a == 0);
        assert(b == 0);
        assert(tree(r) == seq![r]);
        assert(lasts_sum(tree(r), 1) == lasts_sum(tree(r), 0) + r.last());
    } else {
        lemma_tree(d);
        if b == 0 {
            assert(!has_nonzero(d));
            assert(tree(d) == seq![d]);
            let t = tree(r);
            assert(t.len() == 2);
            assert(t[1] == d);
            assert(d.last() == d[n - 2]);
            assert(lasts_sum(t, 1) == lasts_sum(t, 0) + r.last());
            assert(lasts_sum(t, 2) == lasts_sum(t, 1) + d.last());
        } else {
            let dd = diff(d);
            assert(d[0] == b);
            assert(has_nonzero(d));
            assert forall|i: int| 0 <= i < dd.len() implies #[trigger] dd[i] == 0 by {
                assert(d[i + 1] == b && d[i] == b);
            }
            assert(!has_nonzero(dd));
            lemma_tree(dd);
            assert(tree(dd) == seq![dd]);
            let t = tree(r);
            assert(t.len() == 3);
            assert(t[1] == d);
            assert(t[2] == dd);
            assert(d.last() == d[n - 2]);
            assert(dd.last() == dd[n - 3]);
            assert(lasts_sum(t, 1) == lasts_sum(t, 0) + r.last());
            assert(lasts_sum(t, 2) == lasts_sum(t, 1) + d.last());
            assert(lasts_sum(t, 3) == lasts_sum(t, 2) + dd.last());
        }
    }
}

/// Readings that grow by the same step `b` from `a` extend backwards by
/// that step: the value before `a, a + b, ..., a + (n-1) b` is `a - b`.
pub proof fn lemma_extrap_first_linear(r: Seq<int>, a: int, b: int)
    requires
        r.len() >= 2,
        b == 0 || r.len() >= 3,
        forall|i: int| 0 <= i < r.len() ==> #[trigger] r[i] == a + b * i,
    ensures
        extrap(r.reverse()) == a - b,
{
    let n = r.len() as int;
    let v = r.reverse();
    let a2 = a + b * (n - 1);
    assert forall|i: int| 0 <= i < v.len() implies #[trigger] v[i] == a2 + (-b) * i by {
        assert(v[i] == r[n - 1 - i]);
        assert(b * (n - 1 - i) == b * (n - 1) + (-b) * i) by (nonlinear_arith);
    }
    lemma_extrap_linear(v, a2, -b);
    assert(a2 + (-b) * n == a - b) by (nonlinear_arith)
        requires
            a2 == a + b * (n - 1),
    ;
}

/// The rows of differences of `readings` (see `tree`).
pub fn get_tree(readings: &[i64]) -> (res: Vec<Vec<i64>>)
    requires
        forall|k: int, i: int| 0 <= k < tree(ints(readings@)).len() && 0 <= i < tree(ints(readings@))[k].len() ==> in_i64(#[trigger] tree(ints(readings@))[k][i]),
    ensures
        res@.map_values(|l: Vec<i64>| ints(l@)) == tree(ints(readings@)),
{
    let ghost t = tree(ints(readings@));
    let mut list: Vec<Vec<i64>> = Vec::new();
    let mut last: Vec<i64> = Vec::new();
    let mut c: usize = 0;
    while c < readings.len()
        invariant
            c <= readings@.len(),
            last@ == readings@.take(c as int),
        decreases readings@.len() - c,
    {
        last.push(readings[c]);
        assert(last@ =~= readings@.take(c + 1));
        c += 1;
    }
    assert(last@ =~= readings@);
    loop
        invariant
            t == tree(ints(readings@)),
            forall|k: int, i: int| 0 <= k < t.len() && 0 <= i < t[k].len() ==> in_i64(#[trigger] t[k][i]),
            list@.len() < t.len(),
            forall|k: int| 0 <= k < list@.len() ==> ints((#[trigger] list@[k])@) == t[k],
            tree(ints(last@)) =~= t.skip(list@.len() as int),
        decreases last@.len(),
    {
        let ghost lv = ints(last@);
        proof { lemma_tree(lv); }
        let mut any = false;
        let mut i: usize = 0;
        while i < last.len()
            invariant
                i <= last@.len(),
                lv == ints(last@),
                any <==> exists|j: int| 0 <= j < i && lv[j] != 0,
            decreases last@.len() - i,
        {
            assert(lv[i as int] == last@[i as int] as int);
            if last[i] != 0 {
                any = true;
            }
            i += 1;
        }
        if !any {
            let ghost n = list@.len();
            list.push(last);
            proof {
                assert(t.skip(n as int).len() == 1);
                assert(t.len() == n + 1);
                assert(list@.map_values(|l: Vec<i64>| ints(l@)) =~= t) by {
                    assert forall|k: int| 0 <= k < t.len() implies list@.map_values(|l: Vec<i64>| ints(l@))[k] == t[k] by {
                        if k == n {
                            assert(t.skip(n as int)[0] == t[k]);
                        }
                    }
                }
            }
            return list;
        }
        let ghost row = list@.len() as int;
        proof {
            assert(has_nonzero(lv));
            assert(lv.len() > 0);
            assert(tree(lv).len() >= 2);
            assert(t.skip(row).len() >= 2);
            assert(t.skip(row)[1] == t[row + 1]);
            assert(tree(lv)[1] == tree(diff(lv))[0]);
            assert(t[row + 1] == diff(lv));
        }
        let mut next: Vec<i64> = Vec::new();
        let mut j: usize = 0;
        while j < last.len() - 1
            invariant
                j <= last@.len() - 1,
                lv == ints(last@),
                lv.len() > 0,
                last@.len() == lv.len(),
                0 <= row,
                row + 1 < t.len(),
                t[row + 1] == diff(lv),
                forall|k: int, i: int| 0 <= k < t.len() && 0 <= i < t[k].len() ==> in_i64(#[trigger] t[k][i]),
                next@.len() == j,
                forall|k: int| 0 <= k < j ==> #[trigger] next@[k] == lv[k + 1] - lv[k],
            decreases last@.len() - j,
        {
            assert(0 <= row + 1 < t.len());
            assert(diff(lv).len() == lv.len() - 1);
            assert(j < t[row + 1].len());
            assert(in_i64(t[row + 1][j as int]));
            assert(t[row + 1][j as int] == lv[j + 1] - lv[j as int]);
            next.push(last[j + 1] - last[j]);
            j += 1;
        }
        assert(ints(next@) =~= diff(lv));
        list.push(last);
        last = next;
        proof {
            assert(tree(diff(lv)) =~= t.skip(list@.len() as int)) by {
                assert forall|k: int| 0 <= k < tree(diff(lv)).len() implies tree(diff(lv))[k] == t.skip(list@.len() as int)[k] by {
                    assert(tree(lv)[k + 1] == tree(diff(lv))[k]);
                    assert(t.skip(row)[k + 1] == t[row + 1 + k]);
                }
            }
        }
    }
}

/// The next value of `readings` (see `extrap`).
pub fn extrapolate_last(readings: &[i64]) -> (res: i64)
    requires
        extrap_ok(ints(readings@)),
    ensures
        res == extrap(ints(readings@)),
{
    let tree_rows = get_tree(readings);
    let ghost t = tree(ints(readings@));
    assert(tree_rows@.len() == t.len());
    let mut sum: i64 = 0;
    let mut k: usize = 0;
    while k < tree_rows.len()
        invariant
            k <= tree_rows@.len(),
            tree_rows@.map_values(|l: Vec<i64>| ints(l@)) == t,
            t == tree(ints(readings@)),
            extrap_ok(ints(readings@)),
            sum == lasts_sum(t, k as int),
        decreases tree_rows@.len() - k,
    {
        assert(ints(tree_rows@[k as int]@) == t[k as int]);
        assert(t[k as int].len() > 0);
        assert(in_i64(lasts_sum(t, k + 1)));
        let row = &tree_rows[k];
        sum = sum + row[row.len() - 1];
        k += 1;
    }
    sum
}

/// The value before the first of `readings`: the next value of the
/// readings reversed.
pub fn extrapolate_first(readings: &[i64]) -> (res: i64)
    requires
        extrap_ok(ints(readings@.reverse())),
    ensures
        res == extrap(ints(readings@.reverse())),
{
    let mut rev: Vec<i64> = Vec::new();
    let mut i = readings.len();
    while i > 0
        invariant
            i <= readings@.len(),
            rev@ == readings@.subrange(i as int, readings@.len() as int).reverse(),
        decreases i,
    {
        i -= 1;
        rev.push(readings[i]);
        assert(rev@ =~= readings@.subrange(i as int, readings@.len() as int).reverse());
    }
    assert(readings@.subrange(0, readings@.len() as int) =~= readings@);
    extrapolate_last(rev.as_slice())
}

/// The sum over the first `n` lines of `f` applied to each.
pub open spec fn lines_sum(ls: Seq<Seq<i64>>, n: int, first: bool) -> int
    decreases n,
{
    if n <= 0 {
        0
    } else {
        lines_sum(ls, n - 1, first) + if first { extrap(ints(ls[n - 1].reverse())) } else { extrap(ints(ls[n - 1])) }
    }
}

pub open spec fn lines_view(r: Readings) -> Seq<Seq<i64>> {
    r.lines@.map_values(|l: Vec<i64>| l@)
}

/// The sum of the next values of all lines.
pub fn part1(input: &Readings) -> (res: i64)
    requires
        forall|i: int| 0 <= i < input.lines@.len() ==> extrap_ok(ints((#[trigger] input.lines@[i])@)),
        forall|n: int| 0 <= n <= input.lines@.len() ==> in_i64(#[trigger] lines_sum(lines_view(*input), n, false)),
    ensures
        res == lines_sum(lines_view(*input), input.lines@.len() as int, false),
{
    let mut sum: i64 = 0;
    let mut i: usize = 0;
    while i < input.lines.len()
        invariant
            i <= input.lines@.len(),
            forall|i: int| 0 <= i < input.lines@.len() ==> extrap_ok(ints((#[trigger] input.lines@[i])@)),
            forall|n: int| 0 <= n <= input.lines@.len() ==> in_i64(#[trigger] lines_sum(lines_view(*input), n, false)),
            sum == lines_sum(lines_view(*input), i as int, false),
        decreases input.lines@.len() - i,
    {
        assert(lines_view(*input)[i as int] == input.lines@[i as int]@);
        assert(in_i64(lines_sum(lines_view(*input), i + 1, false)));
        let v = extrapolate_last(input.lines[i].as_slice());
        sum = sum + v;
        i += 1;
    }
    sum
}

/// The sum of the values before the first of all lines.
pub fn part2(input: &Readings) -> (res: i64)
    requires
        forall|i: int| 0 <= i < input.lines@.len() ==> extrap_ok(ints((#[trigger] input.lines@[i])@.reverse())),
        forall|n: int| 0 <= n <= input.lines@.len() ==> in_i64(#[trigger] lines_sum(lines_view(*input), n, true)),
    ensures
        res == lines_sum(lines_view(*input), input.lines@.len() as int, true),
{
    let mut sum: i64 = 0;
    let mut i: usize = 0;
    while i < input.lines.len()
        invariant
            i <= input.lines@.len(),
            forall|i: int| 0 <= i < input.lines@.len() ==> extrap_ok(ints((#[trigger] input.lines@[i])@.reverse())),
            forall|n: int| 0 <= n <= input.lines@.len() ==> in_i64(#[trigger] lines_sum(lines_view(*input), n, true)),
            sum == lines_sum(lines_view(*input), i as int, true),
        decreases input.lines@.len() - i,
    {
        assert(lines_view(*input)[i as int] == input.lines@[i as int]@);
        assert(in_i64(lines_sum(lines_view(*input), i + 1, true)));
        let v = extrapolate_first(input.lines[i].as_slice());
        sum = sum + v;
        i += 1;
    }
    sum
}

} // verus!
