//! Gear ratios: part numbers next to symbols in an engine schematic.
use vstd::prelude::*;
use vstd::string::StringSliceAdditionalSpecFns;
use crate::text;
use crate::text::scan_u64;

verus! {

/// The tokens of the schematic; runs of `.` separate them.
#[derive(Debug, Clone, Copy, PartialEq, Eq, Structural)]
pub enum Token {
    Num(u32),
    Symbol(char),
    Newline,
    Error,
}

/// The tokens of `s` from position `i` on, each with its span of bytes;
/// anything that is no token ends the sequence with `Error`.
pub open spec fn lex_from(s: Seq<u8>, i: int) -> Seq<(Token, int, int)>
    decreases s.len() - i,
{
    if i < 0 || i >= s.len() {
        Seq::empty()
    } else if s[i] == 46u8 {
        lex_from(s, i + 1)
    } else if text::is_digit(s[i]) {
        let r = 1 + text::digit_run(s, i + 1);
        proof { text::lemma_digit_run(s, i + 1); }
        let v = text::digits_value(s.subrange(i, i + r));
        if v <= u32::MAX {
            seq![(Token::Num(v as u32), i, i + r)] + lex_from(s, i + r)
        } else {
            seq![(Token::Error, i, i + r)]
        }
    } else if s[i] == 10u8 {
        seq![(Token::Newline, i, i + 1)] + lex_from(s, i + 1)
    } else {
        seq![(Token::Symbol(s[i] as char), i, i + 1)] + lex_from(s, i + 1)
    }
}

pub proof fn lemma_lex_spans(s: Seq<u8>, i: int)
    requires
        0 <= i,
    ensures
        forall|k: int| 0 <= k < lex_from(s, i).len() ==> (#[trigger] lex_from(s, i)[k]).1 < s.len(),
    decreases s.len() - i,
{
    if i < s.len() {
        if s[i] == 46u8 {
            lemma_lex_spans(s, i + 1);
            assert(lex_from(s, i) == lex_from(s, i + 1));
        } else if text::is_digit(s[i]) {
            text::lemma_digit_run(s, i + 1);
            let r = 1 + text::digit_run(s, i + 1);
            lemma_lex_spans(s, i + r);
            let v = text::digits_value(s.subrange(i, i + r));
            if v <= u32::MAX {
                let a = seq![(Token::Num(v as u32), i, i + r)];
                let b = lex_from(s, i + r);
                assert(lex_from(s, i) == a + b);
                assert forall|k: int| 0 <= k < (a + b).len() implies (#[trigger] (a + b)[k]).1 < s.len() by {
                    if k > 0 {
                        assert((a + b)[k] == b[k - 1]);
                    }
                }
            } else {
                assert(lex_from(s, i) == seq![(Token::Error, i, i + r)]);
                assert forall|k: int| 0 <= k < lex_from(s, i).len() implies (#[trigger] lex_from(s, i)[k]).1 < s.len() by {
                    assert(k == 0);
                }
            }
        } else {
            lemma_lex_spans(s, i + 1);
            let b = lex_from(s, i + 1);
            let t0 = if s[i] == 10u8 { Token::Newline } else { Token::Symbol(s[i] as char) };
            assert(lex_from(s, i) == seq![(t0, i, i + 1)] + b);
            assert forall|k: int| 0 <= k < lex_from(s, i).len() implies (#[trigger] lex_from(s, i)[k]).1 < s.len() by {
                if k > 0 {
                    assert(lex_from(s, i)[k] == b[k - 1]);
                }
            }
        }
    }
}

/// Splits `s` into its tokens and their spans (see `lex_from`).
pub fn lex(s: &[u8]) -> (res: Vec<(Token, usize, usize)>)
    ensures
        res@.map_values(|t: (Token, usize, usize)| (t.0, t.1 as int, t.2 as int)) == lex_from(s@, 0),
{
    let mut out: Vec<(Token, usize, usize)> = Vec::new();
    let mut i: usize = 0;
    while i < s.len()
        invariant
            i <= s.len(),
            out@.map_values(|t: (Token, usize, usize)| (t.0, t.1 as int, t.2 as int)) + lex_from(s@, i as int) == lex_from(s@, 0),
        decreases s.len() - i,
    {
        let ghost before = out@.map_values(|t: (Token, usize, usize)| (t.0, t.1 as int, t.2 as int));
        let c = s[i];
        if c == 46u8 {
            i += 1;
        } else if 48u8 <= c && c <= 57u8 {
            proof { text::lemma_digit_run(s@, i as int); }
            let (j, v) = scan_u64(s, i);
            assert(j == i + 1 + text::digit_run(s@, i + 1)) by {
                assert(text::digit_run(s@, i as int) == 1 + text::digit_run(s@, i + 1));
            }
            match v {
                Some(n) if n <= 0xffff_ffffu64 => {
                    out.push((Token::Num(n as u32), i, j));
                    assert(out@.map_values(|t: (Token, usize, usize)| (t.0, t.1 as int, t.2 as int)) =~= before.push((Token::Num(n as u32), i as int, j as int)));
                    assert(out@.map_values(|t: (Token, usize, usize)| (t.0, t.1 as int, t.2 as int)) + lex_from(s@, j as int) =~= lex_from(s@, 0));
                    i = j;
                },
                _ => {
                    out.push((Token::Error, i, j));
                    assert(out@.map_values(|t: (Token, usize, usize)| (t.0, t.1 as int, t.2 as int)) =~= lex_from(s@, 0));
                    return out;
                },
            }
        } else {
            let t = if c == 10u8 { Token::Newline } else { Token::Symbol(c as char) };
            out.push((t, i, i + 1));
            assert(out@.map_values(|t: (Token, usize, usize)| (t.0, t.1 as int, t.2 as int)) =~= before.push((t, i as int, i + 1)));
            assert(out@.map_values(|t: (Token, usize, usize)| (t.0, t.1 as int, t.2 as int)) + lex_from(s@, i + 1) =~= lex_from(s@, 0));
            i += 1;
        }
    }
    assert(out@.map_values(|t: (Token, usize, usize)| (t.0, t.1 as int, t.2 as int)) =~= lex_from(s@, 0));
    out
}

/// A part number and where its digits lie.
#[derive(Debug, Clone, Copy, PartialEq, Eq, Structural, Default)]
pub struct Part {
    pub id: u32,
    pub x0: i32,
    pub x1: i32,
    pub y: i32,
}

/// A symbol and where it lies.
#[derive(Debug, Clone, Copy, PartialEq, Eq, Structural)]
pub struct Symbol {
    pub c: char,
    pub x: i32,
    pub y: i32,
}

/// The numbers and symbols of the schematic, in reading order.
#[derive(Debug, Clone)]
pub struct Matrix {
    pub parts: Vec<Part>,
    pub symbols: Vec<Symbol>,
}

/// The reader's state: the line number, the length of a line (set by the
/// first newline, 0 before it), and what was read.
pub struct ReadState {
    pub y: int,
    pub x_len: int,
    pub parts: Seq<Part>,
    pub symbols: Seq<Symbol>,
}

pub enum Outcome<T> {
    Read(T),
    Rejected,
    Overflows,
}

/// The place of a token in its line: its offset less the offset of its
/// line, as the reader computes it (a line is taken to be as long as the
/// first).
pub open spec fn col(st: ReadState, start: int) -> int {
    start - st.x_len * st.y
}

/// Reads the tokens from `k` on; `Overflows` where a place comes out
/// negative or a product leaves the `usize` range.
pub open spec fn read_from(t: Seq<(Token, int, int)>, k: int, st: ReadState) -> Outcome<ReadState>
    decreases t.len() - k,
{
    if k < 0 || k >= t.len() {
        Outcome::Read(st)
    } else {
        let (tok, start, end) = t[k];
        if st.x_len * st.y > usize::MAX {
            Outcome::Overflows
        } else {
            match tok {
                Token::Num(id) => {
                    if col(st, start) < 0 || col(st, end - 1) < 0 {
                        Outcome::Overflows
                    } else {
                        read_from(t, k + 1, ReadState {
                            parts: st.parts.push(Part { id, x0: col(st, start) as i32, x1: col(st, end - 1) as i32, y: st.y as i32 }),
                            ..st
                        })
                    }
                },
                Token::Symbol(c) => {
                    if col(st, start) < 0 {
                        Outcome::Overflows
                    } else {
                        read_from(t, k + 1, ReadState {
                            symbols: st.symbols.push(Symbol { c, x: col(st, start) as i32, y: st.y as i32 }),
                            ..st
                        })
                    }
                },
                Token::Newline => {
                    if st.y + 1 > usize::MAX {
                        Outcome::Overflows
                    } else {
                        read_from(t, k + 1, ReadState { x_len: if st.x_len == 0 { start + 1 } else { st.x_len }, y: st.y + 1, ..st })
                    }
                },
                Token::Error => Outcome::Rejected,
            }
        }
    }
}

/// The schematic that the ASCII text `s` holds: its tokens, and a closing
/// newline at offset 0, read in turn.
pub open spec fn spec_matrix(s: Seq<u8>) -> Outcome<ReadState> {
    read_from(lex_from(s, 0).push((Token::Newline, 0, 0)), 0, ReadState { y: 0, x_len: 0, parts: Seq::empty(), symbols: Seq::empty() })
}

/// Reads the schematic (see `spec_matrix`); fails where a number does not
/// fit in a `u32`.
pub fn input_gen(input: &str) -> (res: Result<Matrix, ()>)
    requires
        !(spec_matrix(input.spec_bytes()) is Overflows),
        forall|i: int| 0 <= i < input.spec_bytes().len() ==> input.spec_bytes()[i] < 128,
    ensures
        match res {
            Ok(m) => spec_matrix(input.spec_bytes()) matches Outcome::Read(st) && m.parts@ == st.parts && m.symbols@ == st.symbols,
            Err(_) => spec_matrix(input.spec_bytes()) is Rejected,
        },
{
    let bytes = input.as_bytes();
    let blen = bytes.len();
    let mut toks = lex(bytes);
    toks.push((Token::Newline, 0, 0));
    let ghost t = toks@.map_values(|t: (Token, usize, usize)| (t.0, t.1 as int, t.2 as int));
    assert(t =~= lex_from(input.spec_bytes(), 0).push((Token::Newline, 0, 0)));
    proof {
        lemma_lex_spans(input.spec_bytes(), 0);
        assert forall|k: int| 0 <= k < t.len() implies (#[trigger] t[k]).1 < usize::MAX by {
            if k < t.len() - 1 {
                assert(t[k] == lex_from(input.spec_bytes(), 0)[k]);
            }
        }
    }
    let mut parts: Vec<Part> = Vec::new();
    let mut symbols: Vec<Symbol> = Vec::new();
    let mut cur_y: usize = 0;
    let mut x_len: usize = 0;
    let mut k: usize = 0;
    while k < toks.len()
        invariant
            k <= toks@.len(),
            t == toks@.map_values(|t: (Token, usize, usize)| (t.0, t.1 as int, t.2 as int)),
            forall|k: int| 0 <= k < t.len() ==> (#[trigger] t[k]).1 < usize::MAX,
            spec_matrix(input.spec_bytes()) == read_from(t, k as int, ReadState { y: cur_y as int, x_len: x_len as int, parts: parts@, symbols: symbols@ }),
            !(spec_matrix(input.spec_bytes()) is Overflows),
        decreases toks@.len() - k,
    {
        let (tok, start, end) = toks[k];
        assert(t[k as int] == (tok, start as int, end as int));
        let base = x_len * cur_y;
        match tok {
            Token::Num(id) => {
                parts.push(Part { id, x0: (start - base) as i32, x1: (end - 1 - base) as i32, y: cur_y as i32 });
            },
            Token::Symbol(c) => {
                symbols.push(Symbol { c, x: (start - base) as i32, y: cur_y as i32 });
            },
            Token::Newline => {
                if x_len == 0 {
                    x_len = start + 1;
                }
                cur_y += 1;
            },
            Token::Error => {
                return Err(());
            },
        }
        k += 1;
    }
    Ok(Matrix { parts, symbols })
}


/// The neighbouring places of a part can be computed without leaving the
/// `i32` range.
pub open spec fn part_ok(p: Part) -> bool {
    p.y > i32::MIN && p.y < i32::MAX && p.x0 > i32::MIN && p.x1 < i32::MAX
}

/// The symbol `s` lies in the box one tile around the part `p`.
pub open spec fn adjacent(p: Part, s: Symbol) -> bool {
    !(s.y > p.y + 1 || s.y < p.y - 1) && !(s.x < p.x0 - 1 || s.x > p.x1 + 1)
}

/// The symbol `s` is next to the tile in row `y`, column `x`, diagonals
/// included.
pub open spec fn next_to_tile(s: Symbol, y: int, x: int) -> bool {
    -1 <= s.y - y <= 1 && -1 <= s.x - x <= 1
}

/// A symbol touches a part exactly when it is next to one of the part's
/// digits, diagonals included.
pub proof fn lemma_adjacent(p: Part, s: Symbol)
    requires
        p.x0 <= p.x1,
    ensures
        adjacent(p, s) <==> exists|x: int| p.x0 <= x <= p.x1 && #[trigger] next_to_tile(s, p.y as int, x),
{
    if adjacent(p, s) {
        let x = if s.x < p.x0 { p.x0 as int } else if s.x > p.x1 { p.x1 as int } else { s.x as int };
        assert(next_to_tile(s, p.y as int, x));
    }
}

/// Whether the symbol `s` touches the part `p` (see `adjacent`).
pub fn is_adjacent(p: &Part, s: &Symbol) -> (res: bool)
    requires
        part_ok(*p),
    ensures
        res == adjacent(*p, *s),
{
    if s.y > p.y + 1 || s.y < p.y - 1 {
        false
    } else if s.x < p.x0 - 1 || s.x > p.x1 + 1 {
        false
    } else {
        true
    }
}

/// Some symbol touches the part `p`.
pub open spec fn touched(p: Part, syms: Seq<Symbol>) -> bool {
    exists|k: int| 0 <= k < syms.len() && adjacent(p, #[trigger] syms[k])
}

/// The sum of the numbers of the first `n` parts that a symbol touches.
pub open spec fn part_sum(parts: Seq<Part>, syms: Seq<Symbol>, n: int) -> int
    decreases n,
{
    if n <= 0 {
        0
    } else {
        part_sum(parts, syms, n - 1) + if touched(parts[n - 1], syms) { parts[n - 1].id as int } else { 0 }
    }
}

proof fn lemma_part_sum_mono(parts: Seq<Part>, syms: Seq<Symbol>, a: int, b: int)
    requires
        0 <= a <= b,
    ensures
        0 <= part_sum(parts, syms, a) <= part_sum(parts, syms, b),
    decreases b,
{
    if b > 0 {
        if a < b {
            lemma_part_sum_mono(parts, syms, a, b - 1);
        } else {
            lemma_part_sum_mono(parts, syms, a - 1, b - 1);
        }
    }
}

/// The sum of the part numbers that some symbol touches.
pub fn part1(input: &Matrix) -> (res: u32)
    requires
        forall|i: int| 0 <= i < input.parts@.len() ==> part_ok(#[trigger] input.parts@[i]),
        part_sum(input.parts@, input.symbols@, input.parts@.len() as int) <= u32::MAX,
    ensures
        res == part_sum(input.parts@, input.symbols@, input.parts@.len() as int),
{
    let mut sum: u32 = 0;
    let mut i: usize = 0;
    while i < input.parts.len()
        invariant
            i <= input.parts@.len(),
            forall|i: int| 0 <= i < input.parts@.len() ==> part_ok(#[trigger] input.parts@[i]),
            part_sum(input.parts@, input.symbols@, input.parts@.len() as int) <= u32::MAX,
            sum == part_sum(input.parts@, input.symbols@, i as int),
        decreases input.parts@.len() - i,
    {
        let p = &input.parts[i];
        assert(part_ok(*p));
        let mut found = false;
        let mut k: usize = 0;
        while k < input.symbols.len() && !found
            invariant
                k <= input.symbols@.len(),
                part_ok(*p),
                found ==> touched(*p, input.symbols@),
                !found ==> forall|j: int| 0 <= j < k ==> !adjacent(*p, #[trigger] input.symbols@[j]),
            decreases input.symbols@.len() - k,
        {
            if is_adjacent(p, &input.symbols[k]) {
                found = true;
            }
            k += 1;
        }
        assert(found == touched(*p, input.symbols@));
        proof { lemma_part_sum_mono(input.parts@, input.symbols@, i + 1, input.parts@.len() as int); }
        if found {
            sum = sum + p.id;
        }
        i += 1;
    }
    sum
}

/// The first of the parts from `j` on that the symbol `s` touches, or
/// `parts.len()`.
pub open spec fn first_touching(parts: Seq<Part>, s: Symbol, j: int) -> int
    decreases parts.len() - j,
{
    if j < 0 || j >= parts.len() {
        parts.len() as int
    } else if adjacent(parts[j], s) {
        j
    } else {
        first_touching(parts, s, j + 1)
    }
}

pub proof fn lemma_first_touching(parts: Seq<Part>, s: Symbol, j: int)
    requires
        0 <= j <= parts.len(),
    ensures
        j <= first_touching(parts, s, j) <= parts.len(),
        first_touching(parts, s, j) < parts.len() ==> adjacent(parts[first_touching(parts, s, j)], s),
        forall|k: int| j <= k < first_touching(parts, s, j) ==> !adjacent(#[trigger] parts[k], s),
    decreases parts.len() - j,
{
    if j < parts.len() && !adjacent(parts[j], s) {
        lemma_first_touching(parts, s, j + 1);
    }
}

/// The gear ratio of a symbol: for a `*`, the product of the numbers of the
/// first two parts (in reading order) that it touches; 0 otherwise.
pub open spec fn ratio(parts: Seq<Part>, s: Symbol) -> int {
    let a = first_touching(parts, s, 0);
    let b = first_touching(parts, s, a + 1);
    if s.c == '*' && a < parts.len() && b < parts.len() { parts[a].id * parts[b].id } else { 0 }
}

/// Only a `*` is a gear: any other symbol adds nothing. A `*` that touches
/// at least two parts adds the product of the numbers of the first two (in
/// reading order); one that touches fewer adds nothing.
pub proof fn lemma_ratio(parts: Seq<Part>, s: Symbol)
    ensures
        s.c != '*' ==> ratio(parts, s) == 0,
        forall|a: int, b: int| #![trigger adjacent(parts[a], s), adjacent(parts[b], s)]
            s.c == '*' && 0 <= a < b < parts.len() && adjacent(parts[a], s) && adjacent(parts[b], s)
            && (forall|k: int| 0 <= k < b && k != a ==> !adjacent(#[trigger] parts[k], s))
            ==> ratio(parts, s) == parts[a].id * parts[b].id,
        (forall|a: int, b: int| #![trigger adjacent(parts[a], s), adjacent(parts[b], s)]
            0 <= a < b < parts.len() ==> !(adjacent(parts[a], s) && adjacent(parts[b], s)))
            ==> ratio(parts, s) == 0,
{
    lemma_first_touching(parts, s, 0);
    let x = first_touching(parts, s, 0);
    if x < parts.len() {
        lemma_first_touching(parts, s, x + 1);
    }
    let y = first_touching(parts, s, x + 1);
    assert forall|a: int, b: int| #![trigger adjacent(parts[a], s), adjacent(parts[b], s)]
        s.c == '*' && 0 <= a < b < parts.len() && adjacent(parts[a], s) && adjacent(parts[b], s)
        && (forall|k: int| 0 <= k < b && k != a ==> !adjacent(#[trigger] parts[k], s))
        implies ratio(parts, s) == parts[a].id * parts[b].id by {
        if x != a {
            if x < a {
                assert(!adjacent(parts[x], s));
            } else {
                assert(!adjacent(parts[a], s));
            }
        }
        if y != b {
            if y < b {
                assert(!adjacent(parts[y], s));
            } else {
                assert(!adjacent(parts[b], s));
            }
        }
    }
    if x < parts.len() && y < parts.len() {
        assert(adjacent(parts[x], s) && adjacent(parts[y], s));
    }
}

/// The sum of the gear ratios of the first `n` symbols.
pub open spec fn ratio_sum(parts: Seq<Part>, syms: Seq<Symbol>, n: int) -> int
    decreases n,
{
    if n <= 0 {
        0
    } else {
        ratio_sum(parts, syms, n - 1) + ratio(parts, syms[n - 1])
    }
}

proof fn lemma_ratio_sum_mono(parts: Seq<Part>, syms: Seq<Symbol>, a: int, b: int)
    requires
        0 <= a <= b,
    ensures
        0 <= ratio_sum(parts, syms, a) <= ratio_sum(parts, syms, b),
    decreases b,
{
    if b > 0 {
        let s = syms[b - 1];
        let x = first_touching(parts, s, 0);
        let y = first_touching(parts, s, x + 1);
        if s.c == '*' && x < parts.len() && y < parts.len() {
            let i1 = parts[x].id as int;
            let i2 = parts[y].id as int;
            assert(i1 * i2 >= 0) by (nonlinear_arith)
                requires
                    i1 >= 0,
                    i2 >= 0;
        }
        if a < b {
            lemma_ratio_sum_mono(parts, syms, a, b - 1);
        } else {
            lemma_ratio_sum_mono(parts, syms, a - 1, b - 1);
        }
    }
}

/// The sum of the gear ratios.
pub fn part2(input: &Matrix) -> (res: u32)
    requires
        forall|i: int| 0 <= i < input.parts@.len() ==> part_ok(#[trigger] input.parts@[i]),
        ratio_sum(input.parts@, input.symbols@, input.symbols@.len() as int) <= u32::MAX,
    ensures
        res == ratio_sum(input.parts@, input.symbols@, input.symbols@.len() as int),
{
    let ghost parts = input.parts@;
    let mut sum: u32 = 0;
    let mut k: usize = 0;
    while k < input.symbols.len()
        invariant
            k <= input.symbols@.len(),
            parts == input.parts@,
            forall|i: int| 0 <= i < parts.len() ==> part_ok(#[trigger] parts[i]),
            ratio_sum(parts, input.symbols@, input.symbols@.len() as int) <= u32::MAX,
            sum == ratio_sum(parts, input.symbols@, k as int),
        decreases input.symbols@.len() - k,
    {
        let s = &input.symbols[k];
        proof {
            lemma_ratio_sum_mono(parts, input.symbols@, k + 1, input.symbols@.len() as int);
            lemma_first_touching(parts, *s, 0);
            let a = first_touching(parts, *s, 0);
            if a < parts.len() {
                lemma_first_touching(parts, *s, a + 1);
            }
        }
        if s.c == '*' {
            let ghost a = first_touching(parts, *s, 0);
            let ghost b = first_touching(parts, *s, a + 1);
            let mut nparts: u32 = 0;
            let mut cur_ratio: u32 = 1;
            let mut i: usize = 0;
            let mut done = false;
            while i < input.parts.len() && !done
                invariant
                    parts == input.parts@,
                    forall|i: int| 0 <= i < parts.len() ==> part_ok(#[trigger] parts[i]),
                    i <= parts.len(),
                    a == first_touching(parts, *s, 0),
                    b == first_touching(parts, *s, a + 1),
                    a <= parts.len(),
                    a < parts.len() ==> a + 1 <= b <= parts.len(),
                    forall|k: int| 0 <= k < a ==> !adjacent(#[trigger] parts[k], *s),
                    a < parts.len() ==> adjacent(parts[a], *s),
                    a < parts.len() ==> forall|k: int| a + 1 <= k < b ==> !adjacent(#[trigger] parts[k], *s),
                    b < parts.len() ==> adjacent(parts[b], *s),
                    s.c == '*',
                    ratio(parts, *s) <= u32::MAX,
                    !done ==> (nparts == 0 ==> i <= a) && (nparts == 1 ==> a < i <= b && cur_ratio == parts[a].id),
                    !done ==> nparts <= 1,
                    nparts == 0 ==> cur_ratio == 1,
                    done ==> cur_ratio == ratio(parts, *s) && b < parts.len(),
                decreases parts.len() - i,
            {
                if is_adjacent(&input.parts[i], s) {
                    nparts += 1;
                    cur_ratio = cur_ratio * input.parts[i].id;
                    if nparts == 2 {
                        done = true;
                    }
                }
                i += 1;
            }
            if done {
                sum = sum + cur_ratio;
            }
        }
        k += 1;
    }
    sum
}

} // verus!
