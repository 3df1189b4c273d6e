//! Never tell me the odds: reading the hailstones. Their positions and
//! velocities are integers; the geometry on them is done in floating point,
//! outside this library.
use vstd::prelude::*;
use crate::day9::{at, byte_is, lemma_p_int, p_int, read_int};
use crate::text::ParseError;

verus! {

/// Three integer coordinates.
#[derive(Debug, Clone, Copy, PartialEq, Eq, Structural)]
pub struct Coords {
    pub x: i64,
    pub y: i64,
    pub z: i64,
}

/// A hailstone as read: its position and its velocity.
#[derive(Debug, Clone, Copy, PartialEq, Eq, Structural)]
pub struct Hailstone {
    pub pos: Coords,
    pub vel: Coords,
}

/// The position after the spaces from `i` on.
pub open spec fn p_spaces(s: Seq<u8>, i: int) -> int
    decreases s.len() - i,
{
    if byte_is(s, i, 32u8) { p_spaces(s, i + 1) } else { i }
}

/// The symbol `c` at `i`, with any spaces before and after it; the
/// position after them.
pub open spec fn p_spaced(s: Seq<u8>, i: int, c: u8) -> Option<int> {
    let j = p_spaces(s, i);
    if byte_is(s, j, c) { Some(p_spaces(s, j + 1)) } else { None }
}

/// Three integers separated by commas.
pub open spec fn p_coords(s: Seq<u8>, i: int) -> Option<(Coords, int)> {
    match p_int(s, i) {
        Some((x, i1)) => match p_spaced(s, i1, 44u8) {
            Some(j1) => match p_int(s, j1) {
                Some((y, i2)) => match p_spaced(s, i2, 44u8) {
                    Some(j2) => match p_int(s, j2) {
                        Some((z, i3)) => Some((Coords { x, y, z }, i3)),
                        None => None,
                    },
                    None => None,
                },
                None => None,
            },
            None => None,
        },
        None => None,
    }
}

/// A hailstone: position `@` velocity, then `\n` or the end.
pub open spec fn p_hail(s: Seq<u8>, i: int) -> Option<(Hailstone, int)> {
    match p_coords(s, i) {
        Some((pos, i1)) => match p_spaced(s, i1, 64u8) {
            Some(j) => match p_coords(s, j) {
                Some((vel, i2)) => if byte_is(s, i2, 10u8) {
                    Some((Hailstone { pos, vel }, i2 + 1))
                } else if i2 == s.len() {
                    Some((Hailstone { pos, vel }, i2))
                } else {
                    None
                },
                None => None,
            },
            None => None,
        },
        None => None,
    }
}

proof fn lemma_p_spaces(s: Seq<u8>, i: int)
    requires
        0 <= i <= s.len(),
    ensures
        i <= p_spaces(s, i) <= s.len(),
    decreases s.len() - i,
{
    if byte_is(s, i, 32u8) {
        lemma_p_spaces(s, i + 1);
    }
}

proof fn lemma_p_spaced(s: Seq<u8>, i: int, c: u8)
    requires
        0 <= i <= s.len(),
    ensures
        p_spaced(s, i, c) matches Some(j) ==> i < j <= s.len(),
{
    lemma_p_spaces(s, i);
    let j = p_spaces(s, i);
    if byte_is(s, j, c) {
        lemma_p_spaces(s, j + 1);
    }
}

proof fn lemma_p_coords(s: Seq<u8>, i: int)
    requires
        0 <= i <= s.len(),
    ensures
        p_coords(s, i) matches Some((c, j)) ==> i < j <= s.len(),
{
    lemma_p_int(s, i);
    if let Some((x, i1)) = p_int(s, i) {
        lemma_p_spaced(s, i1, 44u8);
        if let Some(j1) = p_spaced(s, i1, 44u8) {
            lemma_p_int(s, j1);
            if let Some((y, i2)) = p_int(s, j1) {
                lemma_p_spaced(s, i2, 44u8);
                if let Some(j2) = p_spaced(s, i2, 44u8) {
                    lemma_p_int(s, j2);
                }
            }
        }
    }
}

proof fn lemma_p_hail(s: Seq<u8>, i: int)
    requires
        0 <= i <= s.len(),
    ensures
        p_hail(s, i) matches Some((h, j)) ==> i < j <= s.len(),
{
    lemma_p_coords(s, i);
    if let Some((pos, i1)) = p_coords(s, i) {
        lemma_p_spaced(s, i1, 64u8);
        if let Some(j) = p_spaced(s, i1, 64u8) {
            lemma_p_coords(s, j);
        }
    }
}

/// The hailstones from `i` on, one after the other, and where they end.
pub open spec fn p_hails(s: Seq<u8>, i: int) -> (Seq<Hailstone>, int)
    decreases s.len() - i,
{
    match p_hail(s, i) {
        Some((h, j)) => if i < j <= s.len() {
            let r = p_hails(s, j);
            (seq![h] + r.0, r.1)
        } else {
            (Seq::empty(), i)
        },
        None => (Seq::empty(), i),
    }
}

/// The hailstones of the input: at least one, and nothing else.
pub open spec fn spec_hails(s: Seq<u8>) -> Option<Seq<Hailstone>> {
    let r = p_hails(s, 0);
    if r.0.len() >= 1 && r.1 == s.len() { Some(r.0) } else { None }
}

fn skip_spaces(s: &[u8], i: usize) -> (res: usize)
    requires
        i <= s.len(),
    ensures
        res == p_spaces(s@, i as int),
{
    proof {
        lemma_p_spaces(s@, i as int);
    }
    let mut j = i;
    while j < s.len() && s[j] == 32u8
        invariant
            i <= j <= s.len(),
            p_spaces(s@, j as int) == p_spaces(s@, i as int),
        decreases s.len() - j,
    {
        j += 1;
    }
    j
}

fn read_spaced(s: &[u8], i: usize, c: u8) -> (res: Option<usize>)
    requires
        i <= s.len(),
    ensures
        match p_spaced(s@, i as int, c) {
            Some(j) => res matches Some(k) && k as int == j,
            None => res is None,
        },
{
    proof {
        lemma_p_spaces(s@, i as int);
    }
    let j = skip_spaces(s, i);
    if at(s, j, c) {
        Some(skip_spaces(s, j + 1))
    } else {
        None
    }
}

fn read_coords(s: &[u8], i: usize) -> (res: Option<(Coords, usize)>)
    requires
        i <= s.len(),
    ensures
        match p_coords(s@, i as int) {
            Some((c, j)) => res matches Some((c2, k)) && c2 == c && k as int == j,
            None => res is None,
        },
{
    proof {
        lemma_p_int(s@, i as int);
    }
    let (x, i1) = match read_int(s, i) {
        Some(r) => r,
        None => return None,
    };
    proof {
        lemma_p_spaced(s@, i1 as int, 44u8);
    }
    let j1 = match read_spaced(s, i1, 44u8) {
        Some(j) => j,
        None => return None,
    };
    proof {
        lemma_p_int(s@, j1 as int);
    }
    let (y, i2) = match read_int(s, j1) {
        Some(r) => r,
        None => return None,
    };
    proof {
        lemma_p_spaced(s@, i2 as int, 44u8);
    }
    let j2 = match read_spaced(s, i2, 44u8) {
        Some(j) => j,
        None => return None,
    };
    proof {
        lemma_p_int(s@, j2 as int);
    }
    let (z, i3) = match read_int(s, j2) {
        Some(r) => r,
        None => return None,
    };
    Some((Coords { x, y, z }, i3))
}

fn read_hail(s: &[u8], i: usize) -> (res: Option<(Hailstone, usize)>)
    requires
        i <= s.len(),
    ensures
        match p_hail(s@, i as int) {
            Some((h, j)) => res matches Some((h2, k)) && h2 == h && k as int == j,
            None => res is None,
        },
{
    proof {
        lemma_p_coords(s@, i as int);
    }
    let (pos, i1) = match read_coords(s, i) {
        Some(r) => r,
        None => return None,
    };
    proof {
        lemma_p_spaced(s@, i1 as int, 64u8);
    }
    let j = match read_spaced(s, i1, 64u8) {
        Some(j) => j,
        None => return None,
    };
    proof {
        lemma_p_coords(s@, j as int);
    }
    let (vel, i2) = match read_coords(s, j) {
        Some(r) => r,
        None => return None,
    };
    if at(s, i2, 10u8) {
        Some((Hailstone { pos, vel }, i2 + 1))
    } else if i2 == s.len() {
        Some((Hailstone { pos, vel }, i2))
    } else {
        None
    }
}

/// Reads the hailstones (see `spec_hails`).
#[verifier::loop_isolation(false)]
pub fn input_gen(input: &[u8]) -> (res: Result<Vec<Hailstone>, ParseError>)
    ensures
        match res {
            Ok(v) => spec_hails(input@) == Some(v@),
            Err(e) => e == ParseError::Syntax && spec_hails(input@) is None,
        },
{
    let mut out: Vec<Hailstone> = Vec::new();
    let mut i: usize = 0;
    let ghost total = p_hails(input@, 0);
    loop
        invariant
            i <= input@.len(),
            total == p_hails(input@, 0),
            (out@ + p_hails(input@, i as int).0, p_hails(input@, i as int).1) == total,
        decreases input@.len() - i,
    {
        proof {
            lemma_p_hail(input@, i as int);
        }
        match read_hail(input, i) {
            Some((h, j)) => {
                let ghost r = p_hails(input@, j as int);
                out.push(h);
                assert(out@.drop_last() + (seq![h] + r.0) =~= out@ + r.0);
                i = j;
            },
            None => {
                assert(out@ + Seq::<Hailstone>::empty() =~= out@);
                break;
            },
        }
    }
    if out.len() == 0 || i != input.len() {
        return Err(ParseError::Syntax);
    }
    Ok(out)
}

} // verus!
