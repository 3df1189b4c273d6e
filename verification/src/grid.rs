//! Reading rectangular maps: rows of tile characters, one row per line.
use vstd::prelude::*;
use crate::text::{rows_view, ParseError};

verus! {

/// The length of the run of bytes of `alpha` in `s` that starts at `i`.
pub open spec fn tile_run(s: Seq<u8>, i: int, alpha: Seq<u8>) -> nat
    decreases s.len() - i,
{
    if 0 <= i < s.len() && alpha.contains(s[i]) {
        1 + tile_run(s, i + 1, alpha)
    } else {
        0
    }
}

pub proof fn lemma_tile_run(s: Seq<u8>, i: int, alpha: Seq<u8>)
    requires
        0 <= i <= s.len(),
    ensures
        i + tile_run(s, i, alpha) <= s.len(),
        forall|k: int| i <= k < i + tile_run(s, i, alpha) ==> alpha.contains(#[trigger] s[k]),
        i + tile_run(s, i, alpha) < s.len() ==> !alpha.contains(s[i + tile_run(s, i, alpha)]),
    decreases s.len() - i,
{
    if i < s.len() && alpha.contains(s[i]) {
        lemma_tile_run(s, i + 1, alpha);
    }
}

/// Every row read is nonempty and made of bytes of `alpha`.
pub proof fn lemma_rows_from_alpha(s: Seq<u8>, i: int, alpha: Seq<u8>)
    requires
        0 <= i <= s.len(),
    ensures
        forall|r: int, k: int|
            0 <= r < rows_from(s, i, alpha).0.len() && 0 <= k < rows_from(s, i, alpha).0[r].len()
                ==> alpha.contains(#[trigger] rows_from(s, i, alpha).0[r][k]),
        forall|r: int| 0 <= r < rows_from(s, i, alpha).0.len() ==> (#[trigger] rows_from(s, i, alpha).0[r]).len() > 0,
    decreases s.len() - i,
{
    lemma_tile_run(s, i, alpha);
    let k = tile_run(s, i, alpha);
    if k > 0 && i + k < s.len() && s[i + k] == 10u8 {
        lemma_rows_from_alpha(s, i + k + 1, alpha);
        let r = rows_from(s, i + k + 1, alpha);
        let first = s.subrange(i, i + k);
        assert forall|q: int, j: int| 0 <= q < rows_from(s, i, alpha).0.len() && 0 <= j < rows_from(s, i, alpha).0[q].len()
            implies alpha.contains(#[trigger] rows_from(s, i, alpha).0[q][j]) by {
            if q == 0 {
                assert(rows_from(s, i, alpha).0[q][j] == s[i + j]);
            } else {
                assert(rows_from(s, i, alpha).0[q] == r.0[q - 1]);
            }
        }
        assert forall|q: int| 0 <= q < rows_from(s, i, alpha).0.len() implies (#[trigger] rows_from(s, i, alpha).0[q]).len() > 0 by {
            if q > 0 {
                assert(rows_from(s, i, alpha).0[q] == r.0[q - 1]);
            }
        }
    } else if k > 0 && i + k >= s.len() {
        assert forall|q: int, j: int| 0 <= q < rows_from(s, i, alpha).0.len() && 0 <= j < rows_from(s, i, alpha).0[q].len()
            implies alpha.contains(#[trigger] rows_from(s, i, alpha).0[q][j]) by {
            assert(rows_from(s, i, alpha).0[q][j] == s[i + j]);
        }
    }
}

/// The rows read from position `i` of `s`, and the position where reading
/// stopped. A row is a nonempty run of tiles (bytes of `alpha`) ended by `\n`
/// or by the end of the input; reading stops before the first piece of
/// input that is no such row.
pub open spec fn rows_from(s: Seq<u8>, i: int, alpha: Seq<u8>) -> (Seq<Seq<u8>>, int)
    decreases s.len() - i,
{
    if i < 0 || i > s.len() {
        (Seq::empty(), i)
    } else {
        let k = tile_run(s, i, alpha);
        if k == 0 {
            (Seq::empty(), i)
        } else if i + k >= s.len() {
            (seq![s.subrange(i, s.len() as int)], s.len() as int)
        } else if s[i + k] == 10u8 {
            let r = rows_from(s, i + k + 1, alpha);
            (seq![s.subrange(i, i + k)] + r.0, r.1)
        } else {
            (Seq::empty(), i)
        }
    }
}

/// The map that `s` holds: `None` when not even one row can be read, or when
/// `whole` asks for all of the input to be read and some is left.
pub open spec fn spec_grid(s: Seq<u8>, alpha: Seq<u8>, whole: bool) -> Option<Seq<Seq<u8>>> {
    let r = rows_from(s, 0, alpha);
    if r.0.len() == 0 || (whole && r.1 != s.len()) {
        None
    } else {
        Some(r.0)
    }
}

fn in_alpha(c: u8, alpha: &[u8]) -> (res: bool)
    ensures
        res == alpha@.contains(c),
{
    let mut k: usize = 0;
    while k < alpha.len()
        invariant
            k <= alpha.len(),
            forall|j: int| 0 <= j < k ==> alpha@[j] != c,
        decreases alpha.len() - k,
    {
        if alpha[k] == c {
            return true;
        }
        k += 1;
    }
    false
}

/// Reads rows from position `i` of `s` (see `rows_from`): the rows, and the
/// position where reading stopped.
pub fn read_rows(s: &[u8], i: usize, alpha: &[u8]) -> (res: (Vec<Vec<u8>>, usize))
    requires
        i <= s.len(),
    ensures
        rows_from(s@, i as int, alpha@) == (rows_view(res.0@), res.1 as int),
        res.1 <= s.len(),
{
    let ghost total = rows_from(s@, i as int, alpha@);
    let mut out: Vec<Vec<u8>> = Vec::new();
    let mut i: usize = i;
    let mut stop = false;
    assert(rows_view(out@) + rows_from(s@, i as int, alpha@).0 =~= rows_from(s@, i as int, alpha@).0);
    while !stop
        invariant
            i <= s.len(),
            !stop ==> total == (rows_view(out@) + rows_from(s@, i as int, alpha@).0, rows_from(s@, i as int, alpha@).1),
            stop ==> total == (rows_view(out@), i as int),
        decreases s.len() - i, if stop { 0int } else { 1int },
    {
        proof { lemma_tile_run(s@, i as int, alpha@); }
        let ghost k = tile_run(s@, i as int, alpha@);
        let mut j = i;
        let mut row: Vec<u8> = Vec::new();
        while j < s.len() && in_alpha(s[j], alpha)
            invariant
                i <= j <= i + k,
                i + k <= s.len(),
                k == tile_run(s@, i as int, alpha@),
                forall|m: int| i <= m < i + k ==> alpha@.contains(#[trigger] s@[m]),
                i + k < s.len() ==> !alpha@.contains(s@[i + k]),
                row@ == s@.subrange(i as int, j as int),
            decreases s.len() - j,
        {
            row.push(s[j]);
            assert(row@ =~= s@.subrange(i as int, j + 1));
            j += 1;
        }
        assert(j == i + k);
        if j == i {
            assert(rows_view(out@) + Seq::<Seq<u8>>::empty() =~= rows_view(out@));
            stop = true;
        } else if j >= s.len() {
            out.push(row);
            assert(rows_view(out@) =~= rows_view(out@).drop_last() + seq![s@.subrange(i as int, s@.len() as int)]);
            i = j;
            stop = true;
        } else if s[j] == 10u8 {
            let ghost before = rows_view(out@);
            out.push(row);
            assert(rows_view(out@) =~= before + seq![s@.subrange(i as int, j as int)]);
            let ghost r = rows_from(s@, j + 1, alpha@);
            assert(before + (seq![s@.subrange(i as int, j as int)] + r.0) =~= rows_view(out@) + r.0);
            i = j + 1;
        } else {
            assert(rows_view(out@) + Seq::<Seq<u8>>::empty() =~= rows_view(out@));
            stop = true;
        }
    }
    (out, i)
}

/// Reads the rows of a map (see `spec_grid`); fails with `Syntax` where `spec_grid` is `None`.
pub fn parse_grid(s: &[u8], alpha: &[u8], whole: bool) -> (res: Result<Vec<Vec<u8>>, ParseError>)
    ensures
        match res {
            Ok(rows) => spec_grid(s@, alpha@, whole) == Some(rows_view(rows@)),
            Err(e) => e == ParseError::Syntax && spec_grid(s@, alpha@, whole) is None,
        },
{
    let (out, i) = read_rows(s, 0, alpha);
    if out.len() == 0 || (whole && i != s.len()) {
        return Err(ParseError::Syntax);
    }
    Ok(out)
}

/// A nonempty read of rows moves past them.
pub proof fn lemma_rows_from_progress(s: Seq<u8>, i: int, alpha: Seq<u8>)
    requires
        0 <= i <= s.len(),
    ensures
        i <= rows_from(s, i, alpha).1 <= s.len(),
        rows_from(s, i, alpha).0.len() > 0 ==> rows_from(s, i, alpha).1 > i,
    decreases s.len() - i,
{
    lemma_tile_run(s, i, alpha);
    let k = tile_run(s, i, alpha);
    if k > 0 && i + k < s.len() && s[i + k] == 10u8 {
        lemma_rows_from_progress(s, i + k + 1, alpha);
    }
}

} // verus!
