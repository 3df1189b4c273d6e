//! Lavaduct lagoon: the area dug out along a closed trench.
use vstd::prelude::*;
use crate::text;
use crate::text::{scan_u64, ParseError};

verus! {

#[derive(Debug, Clone, Copy, PartialEq, Eq, Structural)]
pub enum Dir {
    Left,
    Right,
    Up,
    Down,
}

/// A line of the dig plan: a direction, a length and the colour code.
#[derive(Debug, Clone, Copy, PartialEq, Eq, Structural)]
pub struct Step {
    pub dir: Dir,
    pub count: u64,
    pub color: u64,
}

pub open spec fn byte_is(s: Seq<u8>, i: int, c: u8) -> bool {
    0 <= i < s.len() && s[i] == c
}

pub open spec fn dir_of(c: u8) -> Option<Dir> {
    if c == 82u8 {
        Some(Dir::Right)
    } else if c == 76u8 {
        Some(Dir::Left)
    } else if c == 68u8 {
        Some(Dir::Down)
    } else if c == 85u8 {
        Some(Dir::Up)
    } else {
        None
    }
}

/// A decimal number at `i`: `0`, or a nonzero digit and more digits, that
/// fits in a `u64`.
pub open spec fn p_dec(s: Seq<u8>, i: int) -> Option<(u64, int)> {
    if byte_is(s, i, 48u8) {
        Some((0u64, i + 1))
    } else if 0 <= i < s.len() && 49u8 <= s[i] <= 57u8 {
        let r = 1 + text::digit_run(s, i + 1);
        let v = text::digits_value(s.subrange(i, i + r));
        if v <= u64::MAX { Some((v as u64, i + r)) } else { None }
    } else {
        None
    }
}

pub open spec fn is_hex(c: u8) -> bool {
    (48u8 <= c <= 57u8) || (97u8 <= c <= 102u8)
}

pub open spec fn hex_val(c: u8) -> nat {
    if 48u8 <= c <= 57u8 { (c - 48) as nat } else { (c - 87) as nat }
}

pub open spec fn hex_run(s: Seq<u8>, i: int) -> nat
    decreases s.len() - i,
{
    if 0 <= i < s.len() && is_hex(s[i]) { 1 + hex_run(s, i + 1) } else { 0 }
}

pub proof fn lemma_hex_run(s: Seq<u8>, i: int)
    requires
        0 <= i <= s.len(),
    ensures
        i + hex_run(s, i) <= s.len(),
        forall|k: int| i <= k < i + hex_run(s, i) ==> is_hex(#[trigger] s[k]),
    decreases s.len() - i,
{
    if i < s.len() && is_hex(s[i]) {
        lemma_hex_run(s, i + 1);
    }
}

/// The number that the hexadecimal digits `d` spell.
pub open spec fn hex_value(d: Seq<u8>) -> nat
    decreases d.len(),
{
    if d.len() == 0 { 0 } else { hex_value(d.drop_last()) * 16 + hex_val(d.last()) }
}

/// A line of the plan at `i`: `D n (#hhhhhh)` and a line end.
pub open spec fn p_row(s: Seq<u8>, i: int) -> Option<(Step, int)> {
    if 0 <= i < s.len() && dir_of(s[i]) is Some && byte_is(s, i + 1, 32u8) {
        match p_dec(s, i + 2) {
            Some((n, j)) => {
                let r = hex_run(s, j + 3);
                if byte_is(s, j, 32u8) && byte_is(s, j + 1, 40u8) && byte_is(s, j + 2, 35u8) && r > 0
                    && hex_value(s.subrange(j + 3, j + 3 + r)) <= u64::MAX && byte_is(s, j + 3 + r, 41u8) {
                    let st = Step { dir: dir_of(s[i]).unwrap(), count: n, color: hex_value(s.subrange(j + 3, j + 3 + r)) as u64 };
                    if byte_is(s, j + 4 + r, 10u8) {
                        Some((st, j + 5 + r))
                    } else if j + 4 + r == s.len() {
                        Some((st, j + 4 + r))
                    } else {
                        None
                    }
                } else {
                    None
                }
            },
            None => None,
        }
    } else {
        None
    }
}

pub proof fn lemma_p_row(s: Seq<u8>, i: int)
    ensures
        p_row(s, i) matches Some((st, j)) ==> i < j <= s.len(),
{
    if 0 <= i < s.len() && dir_of(s[i]) is Some && byte_is(s, i + 1, 32u8) {
        if 0 <= i + 2 < s.len() && 49u8 <= s[i + 2] <= 57u8 {
            text::lemma_digit_run(s, i + 3);
        }
        if let Some((n, j)) = p_dec(s, i + 2) {
            if 0 <= j + 3 <= s.len() {
                lemma_hex_run(s, j + 3);
            }
        }
    }
}

/// The plan's lines, as many as can be read from `i` on, and where they end.
pub open spec fn p_rows(s: Seq<u8>, i: int) -> (Seq<Step>, int)
    decreases s.len() - i,
{
    match p_row(s, i) {
        Some((st, j)) => if i < j <= s.len() {
            let r = p_rows(s, j);
            (seq![st] + r.0, r.1)
        } else {
            (Seq::empty(), i)
        },
        None => (Seq::empty(), i),
    }
}

/// The dig plan that `s` holds: one or more lines and nothing else.
pub open spec fn spec_plan(s: Seq<u8>) -> Option<Seq<Step>> {
    let (r, j) = p_rows(s, 0);
    if r.len() >= 1 && j == s.len() { Some(r) } else { None }
}

fn at(s: &[u8], i: usize, c: u8) -> (res: bool)
    ensures
        res == byte_is(s@, i as int, c),
{
    i < s.len() && s[i] == c
}

fn read_dec(s: &[u8], i: usize) -> (res: Option<(u64, usize)>)
    requires
        i <= s.len(),
    ensures
        match res {
            Some((v, j)) => p_dec(s@, i as int) == Some((v, j as int)),
            None => p_dec(s@, i as int) is None,
        },
{
    if at(s, i, 48u8) {
        return Some((0, i + 1));
    }
    if i < s.len() && 49u8 <= s[i] && s[i] <= 57u8 {
        proof { text::lemma_digit_run(s@, i + 1); }
        let (j, v) = scan_u64(s, i);
        assert(j == i + 1 + text::digit_run(s@, i + 1)) by {
            assert(text::digit_run(s@, i as int) == 1 + text::digit_run(s@, i + 1));
        }
        match v {
            Some(v) => Some((v, j)),
            None => None,
        }
    } else {
        None
    }
}

/// Reads the run of hexadecimal digits at `i`: where it ends, and its value
/// where that fits in a `u64`.
fn read_hex(s: &[u8], i: usize) -> (res: (usize, Option<u64>))
    requires
        i <= s.len(),
    ensures
        res.0 == i + hex_run(s@, i as int),
        res.1 is Some <==> hex_value(s@.subrange(i as int, res.0 as int)) <= u64::MAX,
        res.1 matches Some(v) ==> v == hex_value(s@.subrange(i as int, res.0 as int)),
{
    proof { lemma_hex_run(s@, i as int); }
    let ghost end = i + hex_run(s@, i as int);
    let mut j = i;
    let mut val: Option<u64> = Some(0);
    assert(s@.subrange(i as int, i as int) =~= Seq::<u8>::empty());
    while j < s.len() && ((48u8 <= s[j] && s[j] <= 57u8) || (97u8 <= s[j] && s[j] <= 102u8))
        invariant
            i <= j <= end,
            end <= s.len(),
            end == i + hex_run(s@, i as int),
            hex_run(s@, i as int) == (j - i) + hex_run(s@, j as int),
            val is Some <==> hex_value(s@.subrange(i as int, j as int)) <= u64::MAX,
            val matches Some(v) ==> v == hex_value(s@.subrange(i as int, j as int)),
        decreases s.len() - j,
    {
        let c = s[j];
        let d: u8 = if c <= 57u8 { c - 48u8 } else { c - 87u8 };
        let ghost old_seq = s@.subrange(i as int, j as int);
        assert(s@.subrange(i as int, j + 1).drop_last() =~= old_seq);
        assert(hex_value(s@.subrange(i as int, j + 1)) == hex_value(old_seq) * 16 + d);
        val = match val {
            Some(v) => match v.checked_mul(16) {
                Some(w) => w.checked_add(d as u64),
                None => None,
            },
            None => None,
        };
        j += 1;
    }
    (j, val)
}

fn read_row(s: &[u8], i: usize) -> (res: Option<(Step, usize)>)
    requires
        i <= s.len(),
    ensures
        match res {
            Some((st, j)) => p_row(s@, i as int) == Some((st, j as int)),
            None => p_row(s@, i as int) is None,
        },
{
    if i >= s.len() {
        return None;
    }
    let c = s[i];
    let dir = if c == 82u8 {
        Dir::Right
    } else if c == 76u8 {
        Dir::Left
    } else if c == 68u8 {
        Dir::Down
    } else if c == 85u8 {
        Dir::Up
    } else {
        return None;
    };
    if !at(s, i + 1, 32u8) {
        return None;
    }
    if 0 <= i + 2 && i + 2 < s.len() && 49u8 <= s[i + 2] && s[i + 2] <= 57u8 {
        proof { text::lemma_digit_run(s@, i + 3); }
    }
    let (n, j) = match read_dec(s, i + 2) {
        Some(r) => r,
        None => {
            return None;
        },
    };
    if !(at(s, j, 32u8) && at(s, j + 1, 40u8) && at(s, j + 2, 35u8)) {
        return None;
    }
    let (e, v) = read_hex(s, j + 3);
    if e == j + 3 {
        return None;
    }
    let color = match v {
        Some(v) => v,
        None => {
            return None;
        },
    };
    if !at(s, e, 41u8) {
        return None;
    }
    let st = Step { dir, count: n, color };
    if at(s, e + 1, 10u8) {
        Some((st, e + 2))
    } else if e + 1 == s.len() {
        Some((st, e + 1))
    } else {
        None
    }
}

/// Reads the dig plan (see `spec_plan`).
#[verifier::loop_isolation(false)]
pub fn input_gen(input: &[u8]) -> (res: Result<Vec<Step>, ParseError>)
    ensures
        match res {
            Ok(v) => spec_plan(input@) == Some(v@),
            Err(e) => e == ParseError::Syntax && spec_plan(input@) is None,
        },
{
    let s = input;
    let mut out: Vec<Step> = Vec::new();
    let mut i: usize = 0;
    let ghost total = p_rows(s@, 0);
    loop
        invariant
            i <= s.len(),
            total == (out@ + p_rows(s@, i as int).0, p_rows(s@, i as int).1),
        decreases s.len() - i,
    {
        proof { lemma_p_row(s@, i as int); }
        match read_row(s, i) {
            Some((st, j)) => {
                let ghost before = out@;
                out.push(st);
                proof {
                    let r = p_rows(s@, j as int);
                    assert(before + (seq![st] + r.0) =~= out@ + r.0);
                }
                i = j;
            },
            None => {
                assert(out@ + Seq::<Step>::empty() =~= out@);
                break;
            },
        }
    }
    if out.len() == 0 || i != s.len() {
        return Err(ParseError::Syntax);
    }
    Ok(out)
}


/// The length of a step as the signed number that `count as i64` gives.
pub open spec fn signed(c: u64) -> int {
    (c as i64) as int
}

/// The corner reached from `p` by the step `st`.
pub open spec fn mv(p: (int, int), st: (Dir, u64)) -> (int, int) {
    let c = signed(st.1);
    match st.0 {
        Dir::Left => (p.0, p.1 - c),
        Dir::Up => (p.0 - c, p.1),
        Dir::Right => (p.0, p.1 + c),
        Dir::Down => (p.0 + c, p.1),
    }
}

/// The corner (row, column) reached after the first `n` steps from (0, 0).
pub open spec fn corner(steps: Seq<(Dir, u64)>, n: int) -> (int, int)
    decreases n,
{
    if n <= 0 { (0, 0) } else { mv(corner(steps, n - 1), steps[n - 1]) }
}

/// The term of the shoelace sum of the `k`-th step.
pub open spec fn shoe_term(steps: Seq<(Dir, u64)>, k: int) -> int {
    (corner(steps, k).0 + corner(steps, k + 1).0) * (corner(steps, k).1 - corner(steps, k + 1).1)
}

/// The shoelace sum (twice the signed area) of the first `n` steps.
pub open spec fn shoelace(steps: Seq<(Dir, u64)>, n: int) -> int
    decreases n,
{
    if n <= 0 { 0 } else { shoelace(steps, n - 1) + shoe_term(steps, n - 1) }
}

/// 2 plus the lengths of the first `n` steps.
pub open spec fn trench(steps: Seq<(Dir, u64)>, n: int) -> int
    decreases n,
{
    if n <= 0 { 2 } else { trench(steps, n - 1) + steps[n - 1].1 }
}

pub open spec fn in_i64(v: int) -> bool {
    i64::MIN <= v <= i64::MAX
}

/// The `k`-th step computes within the ranges of the integer types.
pub open spec fn step_fits(steps: Seq<(Dir, u64)>, k: int) -> bool {
    let a = corner(steps, k);
    let b = corner(steps, k + 1);
    &&& in_i64(b.0) && in_i64(b.1)
    &&& in_i64(a.0 + b.0) && in_i64(a.1 - b.1)
    &&& in_i64(shoe_term(steps, k))
    &&& in_i64(shoelace(steps, k + 1))
    &&& trench(steps, k + 1) <= u64::MAX
}

pub open spec fn absi(v: int) -> int {
    if v < 0 { -v } else { v }
}

/// The whole computation stays within the ranges of the integer types.
pub open spec fn lagoon_fits(steps: Seq<(Dir, u64)>) -> bool {
    &&& forall|k: int| 0 <= k < steps.len() ==> #[trigger] step_fits(steps, k)
    &&& absi(shoelace(steps, steps.len() as int)) + trench(steps, steps.len() as int) <= u64::MAX
}

/// A rectangular trench `a` wide and `b` tall, dug either way round,
/// encloses a lagoon of `(a + 1) * (b + 1)` cubic metres.
pub proof fn lemma_rectangle(a: u64, b: u64)
    requires
        a <= i64::MAX,
        b <= i64::MAX,
    ensures
        (absi(shoelace(seq![(Dir::Right, a), (Dir::Down, b), (Dir::Left, a), (Dir::Up, b)], 4))
            + trench(seq![(Dir::Right, a), (Dir::Down, b), (Dir::Left, a), (Dir::Up, b)], 4)) / 2
            == (a + 1) * (b + 1),
        (absi(shoelace(seq![(Dir::Down, b), (Dir::Right, a), (Dir::Up, b), (Dir::Left, a)], 4))
            + trench(seq![(Dir::Down, b), (Dir::Right, a), (Dir::Up, b), (Dir::Left, a)], 4)) / 2
            == (a + 1) * (b + 1),
{
    let ai = a as int;
    let bi = b as int;
    assert(signed(a) == ai && signed(b) == bi);
    let s1 = seq![(Dir::Right, a), (Dir::Down, b), (Dir::Left, a), (Dir::Up, b)];
    assert(corner(s1, 0) == (0int, 0int));
    assert(corner(s1, 1) == (0int, ai));
    assert(corner(s1, 2) == (bi, ai));
    assert(corner(s1, 3) == (bi, 0int));
    assert(corner(s1, 4) == (0int, 0int));
    assert(shoe_term(s1, 0) == 0) by (nonlinear_arith)
        requires
            shoe_term(s1, 0) == (0 + 0) * (0 - ai),
    ;
    assert(shoe_term(s1, 1) == 0) by (nonlinear_arith)
        requires
            shoe_term(s1, 1) == (0 + bi) * (ai - ai),
    ;
    assert(shoe_term(s1, 2) == 2 * ai * bi) by (nonlinear_arith)
        requires
            shoe_term(s1, 2) == (bi + bi) * (ai - 0),
    ;
    assert(shoe_term(s1, 3) == 0) by (nonlinear_arith)
        requires
            shoe_term(s1, 3) == (bi + 0) * (0 - 0),
    ;
    assert(shoelace(s1, 4) == 2 * ai * bi) by {
        assert(shoelace(s1, 0) == 0);
        assert(shoelace(s1, 1) == shoe_term(s1, 0));
        assert(shoelace(s1, 2) == shoelace(s1, 1) + shoe_term(s1, 1));
        assert(shoelace(s1, 3) == shoelace(s1, 2) + shoe_term(s1, 2));
        assert(shoelace(s1, 4) == shoelace(s1, 3) + shoe_term(s1, 3));
    }
    assert(trench(s1, 4) == 2 + 2 * ai + 2 * bi) by {
        assert(trench(s1, 0) == 2);
        assert(trench(s1, 1) == 2 + ai);
        assert(trench(s1, 2) == 2 + ai + bi);
        assert(trench(s1, 3) == 2 + 2 * ai + bi);
    }
    let s2 = seq![(Dir::Down, b), (Dir::Right, a), (Dir::Up, b), (Dir::Left, a)];
    assert(corner(s2, 0) == (0int, 0int));
    assert(corner(s2, 1) == (bi, 0int));
    assert(corner(s2, 2) == (bi, ai));
    assert(corner(s2, 3) == (0int, ai));
    assert(corner(s2, 4) == (0int, 0int));
    assert(shoe_term(s2, 0) == 0) by (nonlinear_arith)
        requires
            shoe_term(s2, 0) == (0 + bi) * (0 - 0),
    ;
    assert(shoe_term(s2, 1) == -2 * ai * bi) by (nonlinear_arith)
        requires
            shoe_term(s2, 1) == (bi + bi) * (0 - ai),
    ;
    assert(shoe_term(s2, 2) == 0) by (nonlinear_arith)
        requires
            shoe_term(s2, 2) == (bi + 0) * (ai - ai),
    ;
    assert(shoe_term(s2, 3) == 0) by (nonlinear_arith)
        requires
            shoe_term(s2, 3) == (0 + 0) * (ai - 0),
    ;
    assert(shoelace(s2, 4) == -2 * ai * bi) by {
        assert(shoelace(s2, 0) == 0);
        assert(shoelace(s2, 1) == shoe_term(s2, 0));
        assert(shoelace(s2, 2) == shoelace(s2, 1) + shoe_term(s2, 1));
        assert(shoelace(s2, 3) == shoelace(s2, 2) + shoe_term(s2, 2));
        assert(shoelace(s2, 4) == shoelace(s2, 3) + shoe_term(s2, 3));
    }
    assert(trench(s2, 4) == 2 + 2 * ai + 2 * bi) by {
        assert(trench(s2, 0) == 2);
        assert(trench(s2, 1) == 2 + bi);
        assert(trench(s2, 2) == 2 + ai + bi);
        assert(trench(s2, 3) == 2 + ai + 2 * bi);
    }
    assert(ai * bi >= 0) by (nonlinear_arith)
        requires
            ai >= 0,
            bi >= 0,
    ;
    assert((2 * ai * bi + 2 + 2 * ai + 2 * bi) / 2 == (ai + 1) * (bi + 1)) by (nonlinear_arith);
    assert(absi(shoelace(s1, 4)) == 2 * ai * bi);
    assert(-2 * ai * bi == -(2 * ai * bi)) by (nonlinear_arith);
    assert(2 * ai * bi >= 0) by (nonlinear_arith)
        requires
            ai * bi >= 0,
    ;
    assert(absi(shoelace(s2, 4)) == 2 * ai * bi);
}

/// The size of the lagoon dug along the closed trench `steps`: by the
/// shoelace formula and Pick's theorem, half of the absolute shoelace sum
/// plus the trench length plus 2.
pub fn get_lagoon_size(steps: &[(Dir, u64)]) -> (res: u64)
    requires
        lagoon_fits(steps@),
    ensures
        res == (absi(shoelace(steps@, steps@.len() as int)) + trench(steps@, steps@.len() as int)) / 2,
{
    let mut prev: (i64, i64) = (0, 0);
    let mut inside: i64 = 0;
    let mut border: u64 = 2;
    let mut k: usize = 0;
    while k < steps.len()
        invariant
            k <= steps@.len(),
            lagoon_fits(steps@),
            (prev.0 as int, prev.1 as int) == corner(steps@, k as int),
            inside == shoelace(steps@, k as int),
            border == trench(steps@, k as int),
        decreases steps@.len() - k,
    {
        let (dir, count) = steps[k];
        assert(step_fits(steps@, k as int));
        let c = count as i64;
        let cur: (i64, i64) = match dir {
            Dir::Left => (prev.0, prev.1 - c),
            Dir::Up => (prev.0 - c, prev.1),
            Dir::Right => (prev.0, prev.1 + c),
            Dir::Down => (prev.0 + c, prev.1),
        };
        inside = inside + (prev.0 + cur.0) * (prev.1 - cur.1);
        border = border + count;
        prev = cur;
        k += 1;
    }
    let a: u64 = if inside < 0 {
        if inside == i64::MIN { 0x8000_0000_0000_0000u64 } else { (-inside) as u64 }
    } else {
        inside as u64
    };
    (a + border) / 2
}

/// The plan as steps of the given length and direction.
pub open spec fn plain_steps(input: Seq<Step>) -> Seq<(Dir, u64)> {
    input.map_values(|st: Step| (st.dir, st.count))
}

/// The lagoon of the plan as written.
pub fn part1(input: &[Step]) -> (res: u64)
    requires
        lagoon_fits(plain_steps(input@)),
    ensures
        res == (absi(shoelace(plain_steps(input@), input@.len() as int)) + trench(plain_steps(input@), input@.len() as int)) / 2,
{
    let mut steps: Vec<(Dir, u64)> = Vec::new();
    let mut i: usize = 0;
    while i < input.len()
        invariant
            i <= input@.len(),
            steps@ =~= plain_steps(input@).take(i as int),
        decreases input@.len() - i,
    {
        steps.push((input[i].dir, input[i].count));
        i += 1;
    }
    assert(steps@ =~= plain_steps(input@));
    get_lagoon_size(steps.as_slice())
}

/// The step that a colour code spells: the length in all but the last hex
/// digit, the direction in the last (0 right, 1 down, 2 left, 3 up).
pub open spec fn color_step(color: u64) -> (Dir, u64) {
    let d = color % 16;
    (if d == 0 { Dir::Right } else if d == 1 { Dir::Down } else if d == 2 { Dir::Left } else { Dir::Up }, color / 16)
}

pub open spec fn color_steps(input: Seq<Step>) -> Seq<(Dir, u64)> {
    input.map_values(|st: Step| color_step(st.color))
}

/// The lagoon of the plan read from the colour codes.
pub fn part2(input: &[Step]) -> (res: u64)
    requires
        forall|i: int| 0 <= i < input@.len() ==> (#[trigger] input@[i]).color % 16 <= 3,
        lagoon_fits(color_steps(input@)),
    ensures
        res == (absi(shoelace(color_steps(input@), input@.len() as int)) + trench(color_steps(input@), input@.len() as int)) / 2,
{
    let mut steps: Vec<(Dir, u64)> = Vec::new();
    let mut i: usize = 0;
    while i < input.len()
        invariant
            i <= input@.len(),
            forall|i: int| 0 <= i < input@.len() ==> (#[trigger] input@[i]).color % 16 <= 3,
            steps@ =~= color_steps(input@).take(i as int),
        decreases input@.len() - i,
    {
        let color = input[i].color;
        let count = color >> 4;
        let low = color & 0xf;
        assert(count == color / 16 && low == color % 16) by (bit_vector)
            requires
                count == color >> 4,
                low == color & 0xf;
        let dir = if low == 0 {
            Dir::Right
        } else if low == 1 {
            Dir::Down
        } else if low == 2 {
            Dir::Left
        } else {
            Dir::Up
        };
        steps.push((dir, count));
        i += 1;
    }
    assert(steps@ =~= color_steps(input@));
    get_lagoon_size(steps.as_slice())
}

} // verus!
