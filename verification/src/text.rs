//! Shared text handling: splitting input into lines and reading decimal numbers.
use vstd::prelude::*;

verus! {

/// The pieces of `s` between the `\n` separators (there is always at least one piece).
pub open spec fn split_nl(s: Seq<u8>) -> Seq<Seq<u8>>
    decreases s.len(),
{
    if s.len() == 0 {
        seq![Seq::<u8>::empty()]
    } else if s.last() == 10u8 {
        split_nl(s.drop_last()).push(Seq::<u8>::empty())
    } else {
        let p = split_nl(s.drop_last());
        p.update(p.len() - 1, p.last().push(s.last()))
    }
}

/// The lines of `s`, as `str::lines` yields them: a final `\n` ends the last
/// line rather than starting an empty one, and empty input has no lines.
pub open spec fn lines(s: Seq<u8>) -> Seq<Seq<u8>> {
    if s.len() == 0 {
        Seq::empty()
    } else if s.last() == 10u8 {
        split_nl(s).drop_last()
    } else {
        split_nl(s)
    }
}

pub proof fn lemma_split_nl_len(s: Seq<u8>)
    ensures
        split_nl(s).len() >= 1,
    decreases s.len(),
{
    if s.len() > 0 {
        lemma_split_nl_len(s.drop_last());
    }
}

/// The view of a vector of byte vectors as a sequence of byte sequences.
pub open spec fn rows_view(v: Seq<Vec<u8>>) -> Seq<Seq<u8>> {
    v.map_values(|r: Vec<u8>| r@)
}

/// Splits `s` into its lines (see `lines`).
pub fn split_lines(s: &[u8]) -> (res: Vec<Vec<u8>>)
    ensures
        rows_view(res@) == lines(s@),
{
    let mut out: Vec<Vec<u8>> = Vec::new();
    let mut cur: Vec<u8> = Vec::new();
    let mut i: usize = 0;
    assert(s@.take(0) =~= Seq::<u8>::empty());
    while i < s.len()
        invariant
            i <= s.len(),
            rows_view(out@).push(cur@) =~= split_nl(s@.take(i as int)),
        decreases s.len() - i,
    {
        let c = s[i];
        let ghost prev = s@.take(i as int);
        assert(s@.take(i as int + 1).drop_last() =~= prev);
        if c == 10u8 {
            out.push(cur);
            cur = Vec::new();
            assert(rows_view(out@).push(cur@) =~= split_nl(prev).push(Seq::<u8>::empty()));
        } else {
            cur.push(c);
            proof { lemma_split_nl_len(prev); }
            assert(rows_view(out@).push(cur@) =~= split_nl(prev).update(
                split_nl(prev).len() - 1, split_nl(prev).last().push(c)));
        }
        i += 1;
    }
    assert(s@.take(s.len() as int) =~= s@);
    if s.len() == 0 {
        assert(rows_view(out@) =~= Seq::<Seq<u8>>::empty());
        return out;
    }
    if s[s.len() - 1] == 10u8 {
        assert(rows_view(out@) =~= rows_view(out@).push(cur@).drop_last());
        out
    } else {
        out.push(cur);
        out
    }
}

/// Whether `c` is an ASCII decimal digit.
pub open spec fn is_digit(c: u8) -> bool {
    48u8 <= c <= 57u8
}

/// The number that the decimal digits `d` spell.
pub open spec fn digits_value(d: Seq<u8>) -> nat
    decreases d.len(),
{
    if d.len() == 0 {
        0
    } else {
        (digits_value(d.drop_last()) * 10 + (d.last() - 48u8)) as nat
    }
}

/// The length of the run of digits in `s` that starts at `i`.
pub open spec fn digit_run(s: Seq<u8>, i: int) -> nat
    decreases s.len() - i,
{
    if 0 <= i < s.len() && is_digit(s[i]) {
        1 + digit_run(s, i + 1)
    } else {
        0
    }
}

pub proof fn lemma_digit_run(s: Seq<u8>, i: int)
    requires
        0 <= i <= s.len(),
    ensures
        i + digit_run(s, i) <= s.len(),
        forall|k: int| i <= k < i + digit_run(s, i) ==> is_digit(#[trigger] s[k]),
        i + digit_run(s, i) < s.len() ==> !is_digit(s[i + digit_run(s, i)]),
    decreases s.len() - i,
{
    if i < s.len() && is_digit(s[i]) {
        lemma_digit_run(s, i + 1);
    }
}

/// Reads the run of decimal digits of `s` that starts at `i`: returns the
/// position just past it and its value, `None` when the value exceeds `u64::MAX`.
pub fn scan_u64(s: &[u8], i: usize) -> (res: (usize, Option<u64>))
    requires
        i <= s.len(),
    ensures
        res.0 == i + digit_run(s@, i as int),
        res.1 is Some <==> digits_value(s@.subrange(i as int, res.0 as int)) <= u64::MAX,
        res.1 matches Some(v) ==> v == digits_value(s@.subrange(i as int, res.0 as int)),
{
    proof { lemma_digit_run(s@, i as int); }
    let ghost end = i + digit_run(s@, i as int);
    let mut j = i;
    let mut val: Option<u64> = Some(0);
    assert(s@.subrange(i as int, i as int) =~= Seq::<u8>::empty());
    while j < s.len() && 48u8 <= s[j] && s[j] <= 57u8
        invariant
            i <= j <= end,
            end <= s.len(),
            end == i + digit_run(s@, i as int),
            forall|k: int| i <= k < end ==> is_digit(#[trigger] s@[k]),
            end < s.len() ==> !is_digit(s@[end]),
            val is Some <==> digits_value(s@.subrange(i as int, j as int)) <= u64::MAX,
            val matches Some(v) ==> v == digits_value(s@.subrange(i as int, j as int)),
        decreases s.len() - j,
    {
        let d = s[j] - 48u8;
        let ghost old_seq = s@.subrange(i as int, j as int);
        assert(s@.subrange(i as int, j + 1).drop_last() =~= old_seq);
        assert(digits_value(s@.subrange(i as int, j + 1)) == digits_value(old_seq) * 10 + d);
        val = match val {
            Some(v) => match v.checked_mul(10) {
                Some(w) => w.checked_add(d as u64),
                None => None,
            },
            None => None,
        };
        j += 1;
    }
    (j, val)
}

/// Whether the bytes `w` occur in `s` starting at position `i`.
pub open spec fn matches_at(s: Seq<u8>, i: int, w: Seq<u8>) -> bool {
    0 <= i && i + w.len() <= s.len() && s.subrange(i, i + w.len()) =~= w
}

/// Tells whether the bytes `w` occur in `s` starting at position `i`.
pub fn starts_with_at(s: &[u8], i: usize, w: &[u8]) -> (res: bool)
    ensures
        res == matches_at(s@, i as int, w@),
{
    if i > s.len() || w.len() > s.len() - i {
        return false;
    }
    let mut k: usize = 0;
    while k < w.len()
        invariant
            i + w.len() <= s.len(),
            k <= w.len(),
            forall|j: int| 0 <= j < k ==> s@[i + j] == w@[j],
        decreases w.len() - k,
    {
        if s[i + k] != w[k] {
            assert(s@.subrange(i as int, i + w.len())[k as int] != w@[k as int]);
            return false;
        }
        k += 1;
    }
    assert(s@.subrange(i as int, i + w.len()) =~= w@);
    true
}

/// Tells whether two byte strings are equal.
pub fn same_bytes(a: &[u8], b: &[u8]) -> (res: bool)
    ensures
        res == (a@ == b@),
{
    if a.len() != b.len() {
        return false;
    }
    let r = starts_with_at(a, 0, b);
    assert(a@.subrange(0, a@.len() as int) =~= a@);
    r
}

/// The error that the parsers of this crate report on input that does not
/// follow the puzzle's format.
#[derive(Debug, Clone, Copy, PartialEq, Eq, Structural)]
pub enum ParseError {
    /// A line that should hold a digit holds none.
    NoDigits,
    /// The input does not follow the grammar.
    Syntax,
}

} // verus!
