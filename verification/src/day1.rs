//! Trebuchet calibration values.
use vstd::prelude::*;
use vstd::string::StringSliceAdditionalSpecFns;
use crate::text;
use crate::text::{split_lines, starts_with_at, ParseError};

verus! {

/// The value of the first decimal digit of `l`, if any.
pub open spec fn first_digit(l: Seq<u8>) -> Option<u32>
    decreases l.len(),
{
    if l.len() == 0 {
        None
    } else if text::is_digit(l[0]) {
        Some((l[0] - 48u8) as u32)
    } else {
        first_digit(l.drop_first())
    }
}

/// The value of the last decimal digit of `l`, if any.
pub open spec fn last_digit(l: Seq<u8>) -> Option<u32>
    decreases l.len(),
{
    if l.len() == 0 {
        None
    } else if text::is_digit(l.last()) {
        Some((l.last() - 48u8) as u32)
    } else {
        last_digit(l.drop_last())
    }
}

/// The calibration value of a line: its first digit, then its last digit.
pub open spec fn calibration(l: Seq<u8>) -> Option<u32> {
    match (first_digit(l), last_digit(l)) {
        (Some(a), Some(b)) => Some((10 * a + b) as u32),
        _ => None,
    }
}

proof fn lemma_first_digit(l: Seq<u8>, i: int)
    requires
        0 <= i < l.len(),
        text::is_digit(l[i]),
        forall|k: int| 0 <= k < i ==> !text::is_digit(#[trigger] l[k]),
    ensures
        first_digit(l) == Some((l[i] - 48u8) as u32),
    decreases i,
{
    if i > 0 {
        let t = l.drop_first();
        assert forall|k: int| 0 <= k < i - 1 implies !text::is_digit(#[trigger] t[k]) by {
            assert(t[k] == l[k + 1]);
        }
        assert(!text::is_digit(l[0]));
        lemma_first_digit(t, i - 1);
    }
}

proof fn lemma_last_digit(l: Seq<u8>, j: int)
    requires
        0 <= j < l.len(),
        text::is_digit(l[j]),
        forall|k: int| j < k < l.len() ==> !text::is_digit(#[trigger] l[k]),
    ensures
        last_digit(l) == Some((l[j] - 48u8) as u32),
    decreases l.len() - j,
{
    if j < l.len() - 1 {
        let t = l.drop_last();
        assert forall|k: int| j < k < t.len() implies !text::is_digit(#[trigger] t[k]) by {
            assert(t[k] == l[k]);
        }
        assert(!text::is_digit(l[l.len() - 1]));
        lemma_last_digit(t, j);
    }
}

proof fn lemma_no_digit(l: Seq<u8>)
    requires
        forall|k: int| 0 <= k < l.len() ==> !text::is_digit(#[trigger] l[k]),
    ensures
        first_digit(l) is None,
        last_digit(l) is None,
    decreases l.len(),
{
    if l.len() > 0 {
        let t = l.drop_first();
        assert forall|k: int| 0 <= k < t.len() implies !text::is_digit(#[trigger] t[k]) by {
            assert(t[k] == l[k + 1]);
        }
        lemma_no_digit(t);
        let u = l.drop_last();
        assert forall|k: int| 0 <= k < u.len() implies !text::is_digit(#[trigger] u[k]) by {
            assert(u[k] == l[k]);
        }
        lemma_no_digit(u);
        assert(!text::is_digit(l[0]));
        assert(!text::is_digit(l[l.len() - 1]));
    }
}

/// A line's calibration value is ten times its first digit plus its last
/// digit; a line without a digit has none.
pub proof fn lemma_calibration(l: Seq<u8>, i: int, j: int)
    ensures
        (forall|k: int| 0 <= k < l.len() ==> !text::is_digit(#[trigger] l[k])) ==> calibration(l) is None,
        0 <= i <= j < l.len() && text::is_digit(l[i]) && text::is_digit(l[j])
            && (forall|k: int| 0 <= k < i ==> !text::is_digit(#[trigger] l[k]))
            && (forall|k: int| j < k < l.len() ==> !text::is_digit(#[trigger] l[k]))
            ==> calibration(l) == Some((10 * (l[i] - 48) + (l[j] - 48)) as u32),
{
    if forall|k: int| 0 <= k < l.len() ==> !text::is_digit(#[trigger] l[k]) {
        lemma_no_digit(l);
    }
    if 0 <= i <= j < l.len() && text::is_digit(l[i]) && text::is_digit(l[j])
        && (forall|k: int| 0 <= k < i ==> !text::is_digit(#[trigger] l[k]))
        && (forall|k: int| j < k < l.len() ==> !text::is_digit(#[trigger] l[k])) {
        lemma_first_digit(l, i);
        lemma_last_digit(l, j);
    }
}

fn find_first_digit(l: &[u8]) -> (res: Option<u32>)
    ensures
        res == first_digit(l@),
{
    let mut i: usize = 0;
    assert(l@.skip(0) =~= l@);
    while i < l.len()
        invariant
            i <= l.len(),
            first_digit(l@) == first_digit(l@.skip(i as int)),
        decreases l.len() - i,
    {
        assert(l@.skip(i as int).drop_first() =~= l@.skip(i + 1));
        if 48u8 <= l[i] && l[i] <= 57u8 {
            return Some((l[i] - 48u8) as u32);
        }
        i += 1;
    }
    None
}

fn find_last_digit(l: &[u8]) -> (res: Option<u32>)
    ensures
        res == last_digit(l@),
{
    let mut i: usize = l.len();
    assert(l@.take(i as int) =~= l@);
    while i > 0
        invariant
            i <= l.len(),
            last_digit(l@) == last_digit(l@.take(i as int)),
        decreases i,
    {
        assert(l@.take(i as int).drop_last() =~= l@.take(i - 1));
        if 48u8 <= l[i - 1] && l[i - 1] <= 57u8 {
            return Some((l[i - 1] - 48u8) as u32);
        }
        i -= 1;
    }
    None
}

/// The calibration values of the lines of `input`, one per line; fails with
/// `NoDigits` when some line holds no digit.
pub fn input_digits(input: &str) -> (res: Result<Vec<u32>, ParseError>)
    ensures
        match res {
            Ok(v) => v@ == text::lines(input.spec_bytes()).map_values(|l: Seq<u8>| calibration(l).unwrap())
                && forall|k: int| 0 <= k < v@.len() ==> calibration(#[trigger] text::lines(input.spec_bytes())[k]) is Some,
            Err(e) => e == ParseError::NoDigits
                && exists|k: int| 0 <= k < text::lines(input.spec_bytes()).len()
                    && calibration(#[trigger] text::lines(input.spec_bytes())[k]) is None,
        },
{
    let bytes = input.as_bytes();
    let ls = split_lines(bytes);
    let ghost spec_lines = text::lines(bytes@);
    let mut out: Vec<u32> = Vec::new();
    let mut k: usize = 0;
    while k < ls.len()
        invariant
            text::rows_view(ls@) == spec_lines,
            spec_lines == text::lines(input.spec_bytes()),
            k <= ls.len(),
            out@.len() == k,
            forall|j: int| 0 <= j < k ==> calibration(#[trigger] spec_lines[j]) is Some
                && out@[j] == calibration(spec_lines[j]).unwrap(),
        decreases ls.len() - k,
    {
        let l = ls[k].as_slice();
        assert(l@ == spec_lines[k as int]);
        let d1 = find_first_digit(l);
        let d2 = find_last_digit(l);
        match (d1, d2) {
            (Some(a), Some(b)) => {
                proof { lemma_digit_value_bounds(l@); }
                out.push(10 * a + b);
            },
            _ => {
                assert(calibration(spec_lines[k as int]) is None);
                return Err(ParseError::NoDigits);
            },
        }
        k += 1;
    }
    assert(out@ =~= spec_lines.map_values(|l: Seq<u8>| calibration(l).unwrap()));
    Ok(out)
}

proof fn lemma_digit_value_bounds(l: Seq<u8>)
    ensures
        first_digit(l) matches Some(a) ==> a <= 9,
        last_digit(l) matches Some(b) ==> b <= 9,
    decreases l.len(),
{
    if l.len() > 0 {
        lemma_digit_value_bounds(l.drop_first());
        lemma_digit_value_bounds(l.drop_last());
    }
}

/// The spelled-out digit names, indexed by their value (index 0 is unused).
pub open spec fn digit_word(n: int) -> Seq<u8> {
    if n == 1 { seq![111u8, 110, 101] }
    else if n == 2 { seq![116u8, 119, 111] }
    else if n == 3 { seq![116u8, 104, 114, 101, 101] }
    else if n == 4 { seq![102u8, 111, 117, 114] }
    else if n == 5 { seq![102u8, 105, 118, 101] }
    else if n == 6 { seq![115u8, 105, 120] }
    else if n == 7 { seq![115u8, 101, 118, 101, 110] }
    else if n == 8 { seq![101u8, 105, 103, 104, 116] }
    else if n == 9 { seq![110u8, 105, 110, 101] }
    else { Seq::empty() }
}

fn digit_word_bytes(n: usize) -> (res: Vec<u8>)
    requires
        1 <= n <= 9,
    ensures
        res@ == digit_word(n as int),
{
    let v = if n == 1 { vec![111u8, 110, 101] }
    else if n == 2 { vec![116u8, 119, 111] }
    else if n == 3 { vec![116u8, 104, 114, 101, 101] }
    else if n == 4 { vec![102u8, 111, 117, 114] }
    else if n == 5 { vec![102u8, 105, 118, 101] }
    else if n == 6 { vec![115u8, 105, 120] }
    else if n == 7 { vec![115u8, 101, 118, 101, 110] }
    else if n == 8 { vec![101u8, 105, 103, 104, 116] }
    else { vec![110u8, 105, 110, 101] };
    assert(v@ =~= digit_word(n as int));
    v
}

/// The value of the digit, or digit name, that starts at position `i` of `l`.
pub open spec fn digit_starting_at(l: Seq<u8>, i: int) -> Option<u32> {
    if 0 <= i < l.len() && text::is_digit(l[i]) {
        Some((l[i] - 48u8) as u32)
    } else if exists|n: int| 1 <= n <= 9 && text::matches_at(l, i, #[trigger] digit_word(n)) {
        Some((choose|n: int| 1 <= n <= 9 && text::matches_at(l, i, #[trigger] digit_word(n))) as u32)
    } else {
        None
    }
}

/// The value of the digit, or digit name, that ends just before position `e` of `l`.
pub open spec fn digit_ending_at(l: Seq<u8>, e: int) -> Option<u32> {
    if 1 <= e <= l.len() && text::is_digit(l[e - 1]) {
        Some((l[e - 1] - 48u8) as u32)
    } else if exists|n: int| 1 <= n <= 9 && text::matches_at(l, e - digit_word(n).len(), #[trigger] digit_word(n)) {
        Some((choose|n: int| 1 <= n <= 9 && text::matches_at(l, e - digit_word(n).len(), #[trigger] digit_word(n))) as u32)
    } else {
        None
    }
}

/// The first digit or digit name of `l` at or after position `i`.
pub open spec fn first_word_from(l: Seq<u8>, i: int) -> Option<u32>
    decreases l.len() - i,
{
    if i < 0 || i >= l.len() {
        None
    } else {
        match digit_starting_at(l, i) {
            Some(v) => Some(v),
            None => first_word_from(l, i + 1),
        }
    }
}

/// The last digit or digit name of `l` that ends at or before position `e`.
pub open spec fn last_word_before(l: Seq<u8>, e: int) -> Option<u32>
    decreases e,
{
    if e <= 0 || e > l.len() {
        None
    } else {
        match digit_ending_at(l, e) {
            Some(v) => Some(v),
            None => last_word_before(l, e - 1),
        }
    }
}

/// The calibration value of a line when digit names count as digits. A line
/// with no digit at all reads as 0 for the first digit and 9 for the last.
pub open spec fn calibration_words(l: Seq<u8>) -> u32 {
    let d1 = match first_word_from(l, 0) { Some(v) => v, None => 0 };
    let d2 = match last_word_before(l, l.len() as int) { Some(v) => v, None => 9 };
    (d1 * 10 + d2) as u32
}

proof fn lemma_words_distinct(l: Seq<u8>, i: int, n: int, m: int)
    requires
        1 <= n <= 9,
        1 <= m <= 9,
        text::matches_at(l, i, digit_word(n)),
        text::matches_at(l, i, digit_word(m)),
    ensures
        n == m,
{
    let wn = digit_word(n);
    let wm = digit_word(m);
    assert(l[i] == wn[0] && l[i] == wm[0]);
    assert(l[i + 1] == wn[1] && l[i + 1] == wm[1]);
    if n == 4 || n == 5 || m == 4 || m == 5 || n == 6 || n == 7 || m == 6 || m == 7 || n == 2 || n == 3 || m == 2 || m == 3 {
        assert(l[i + 2] == wn[2] && l[i + 2] == wm[2]);
    }
}

proof fn lemma_words_distinct_end(l: Seq<u8>, e: int, n: int, m: int)
    requires
        1 <= n <= 9,
        1 <= m <= 9,
        text::matches_at(l, e - digit_word(n).len(), digit_word(n)),
        text::matches_at(l, e - digit_word(m).len(), digit_word(m)),
    ensures
        n == m,
{
    let wn = digit_word(n);
    let wm = digit_word(m);
    let a = e - wn.len();
    let b = e - wm.len();
    assert(l[e - 1] == wn[wn.len() - 1] && l[e - 1] == wm[wm.len() - 1]);
    assert(l[e - 2] == wn[wn.len() - 2] && l[e - 2] == wm[wm.len() - 2]);
    assert(l[e - 3] == wn[wn.len() - 3] && l[e - 3] == wm[wm.len() - 3]);
}

fn word_starting_at(l: &[u8], i: usize) -> (res: Option<u32>)
    requires
        i < l.len(),
    ensures
        res == digit_starting_at(l@, i as int),
{
    if 48u8 <= l[i] && l[i] <= 57u8 {
        return Some((l[i] - 48u8) as u32);
    }
    let mut n: usize = 1;
    while n <= 9
        invariant
            1 <= n <= 10,
            i < l.len(),
            !text::is_digit(l@[i as int]),
            forall|m: int| 1 <= m < n ==> !text::matches_at(l@, i as int, #[trigger] digit_word(m)),
        decreases 10 - n,
    {
        let w = digit_word_bytes(n);
        if starts_with_at(l, i, w.as_slice()) {
            proof {
                assert forall|m: int| 1 <= m <= 9 && text::matches_at(l@, i as int, #[trigger] digit_word(m))
                    implies m == n by {
                    lemma_words_distinct(l@, i as int, m, n as int);
                }
            }
            return Some(n as u32);
        }
        n += 1;
    }
    None
}

fn word_ending_at(l: &[u8], e: usize) -> (res: Option<u32>)
    requires
        1 <= e <= l.len(),
    ensures
        res == digit_ending_at(l@, e as int),
{
    if 48u8 <= l[e - 1] && l[e - 1] <= 57u8 {
        return Some((l[e - 1] - 48u8) as u32);
    }
    let mut n: usize = 1;
    while n <= 9
        invariant
            1 <= n <= 10,
            1 <= e <= l.len(),
            !text::is_digit(l@[e - 1]),
            forall|m: int| 1 <= m < n ==> !text::matches_at(l@, e - digit_word(m).len(), #[trigger] digit_word(m)),
        decreases 10 - n,
    {
        let w = digit_word_bytes(n);
        if w.len() <= e && starts_with_at(l, e - w.len(), w.as_slice()) {
            proof {
                assert forall|m: int| 1 <= m <= 9 && text::matches_at(l@, e - digit_word(m).len(), #[trigger] digit_word(m))
                    implies m == n by {
                    lemma_words_distinct_end(l@, e as int, m, n as int);
                }
            }
            return Some(n as u32);
        }
        n += 1;
    }
    None
}

proof fn lemma_word_values(l: Seq<u8>, i: int)
    ensures
        digit_starting_at(l, i) matches Some(v) ==> v <= 9,
        digit_ending_at(l, i) matches Some(v) ==> v <= 9,
{
}

proof fn lemma_first_bound(l: Seq<u8>, i: int)
    ensures
        first_word_from(l, i) matches Some(v) ==> v <= 9,
    decreases l.len() - i,
{
    lemma_word_values(l, i);
    if 0 <= i < l.len() {
        lemma_first_bound(l, i + 1);
    }
}

proof fn lemma_last_bound(l: Seq<u8>, e: int)
    ensures
        last_word_before(l, e) matches Some(v) ==> v <= 9,
    decreases e,
{
    lemma_word_values(l, e);
    if 0 < e <= l.len() {
        lemma_last_bound(l, e - 1);
    }
}

fn first_word(l: &[u8]) -> (res: Option<u32>)
    ensures
        res == first_word_from(l@, 0),
{
    let mut i: usize = 0;
    while i < l.len()
        invariant
            i <= l.len(),
            first_word_from(l@, 0) == first_word_from(l@, i as int),
        decreases l.len() - i,
    {
        let w = word_starting_at(l, i);
        if w.is_some() {
            return w;
        }
        i += 1;
    }
    None
}

fn last_word(l: &[u8]) -> (res: Option<u32>)
    ensures
        res == last_word_before(l@, l@.len() as int),
{
    let mut e: usize = l.len();
    while e > 0
        invariant
            e <= l.len(),
            last_word_before(l@, l.len() as int) == last_word_before(l@, e as int),
        decreases e,
    {
        let w = word_ending_at(l, e);
        if w.is_some() {
            return w;
        }
        e -= 1;
    }
    None
}

fn calibrate_words(l: &[u8]) -> (res: u32)
    ensures
        res == calibration_words(l@),
{
    proof {
        lemma_first_bound(l@, 0);
        lemma_last_bound(l@, l@.len() as int);
    }
    let d1 = match first_word(l) { Some(v) => v, None => 0 };
    let d2 = match last_word(l) { Some(v) => v, None => 9 };
    d1 * 10 + d2
}

/// The calibration values of the lines of `input` when spelled-out digit
/// names count as digits (see `calibration_words`); this never fails.
pub fn input_digits_words(input: &str) -> (res: Result<Vec<u32>, ParseError>)
    ensures
        res matches Ok(v) && v@ == text::lines(input.spec_bytes()).map_values(|l: Seq<u8>| calibration_words(l)),
{
    let bytes = input.as_bytes();
    let ls = split_lines(bytes);
    let ghost spec_lines = text::lines(bytes@);
    let mut out: Vec<u32> = Vec::new();
    let mut k: usize = 0;
    while k < ls.len()
        invariant
            text::rows_view(ls@) == spec_lines,
            k <= ls.len(),
            out@.len() == k,
            forall|j: int| 0 <= j < k ==> out@[j] == calibration_words(#[trigger] spec_lines[j]),
        decreases ls.len() - k,
    {
        let v = calibrate_words(ls[k].as_slice());
        out.push(v);
        k += 1;
    }
    assert(out@ =~= spec_lines.map_values(|l: Seq<u8>| calibration_words(l)));
    Ok(out)
}

/// The sum of the numbers of `s`.
pub open spec fn sum_u32(s: Seq<u32>) -> int
    decreases s.len(),
{
    if s.len() == 0 { 0 } else { sum_u32(s.drop_last()) + s.last() }
}

pub proof fn lemma_sum_u32_monotone(s: Seq<u32>, i: int)
    requires
        0 <= i <= s.len(),
    ensures
        sum_u32(s.take(i)) <= sum_u32(s),
    decreases s.len() - i,
{
    if i < s.len() {
        lemma_sum_u32_monotone(s, i + 1);
        assert(s.take(i + 1).drop_last() =~= s.take(i));
    } else {
        assert(s.take(i) =~= s);
    }
}

/// The sum of the calibration values.
pub fn day1(input: &[u32]) -> (res: u32)
    requires
        sum_u32(input@) <= u32::MAX,
    ensures
        res == sum_u32(input@),
{
    let mut acc: u32 = 0;
    let mut i: usize = 0;
    assert(input@.take(0) =~= Seq::<u32>::empty());
    while i < input.len()
        invariant
            i <= input.len(),
            sum_u32(input@) <= u32::MAX,
            acc == sum_u32(input@.take(i as int)),
        decreases input.len() - i,
    {
        assert(input@.take(i + 1).drop_last() =~= input@.take(i as int));
        proof { lemma_sum_u32_monotone(input@, i + 1); }
        acc = acc + input[i];
        i += 1;
    }
    assert(input@.take(input.len() as int) =~= input@);
    acc
}

} // verus!
