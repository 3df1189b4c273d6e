//! Boat races: the ways to beat the record distance.
use vstd::prelude::*;
use vstd::string::StringSliceAdditionalSpecFns;
use crate::text;
use crate::text::{scan_u64, starts_with_at, ParseError};

verus! {

/// The tokens of the race sheet.
#[derive(Debug, Clone, Copy, PartialEq, Eq, Structural)]
pub enum Token {
    Time,
    Distance,
    Num(i64),
    Newline,
    Error,
}

pub open spec fn kw_time() -> Seq<u8> { seq![84u8, 105, 109, 101, 58] }
pub open spec fn kw_distance() -> Seq<u8> { seq![68u8, 105, 115, 116, 97, 110, 99, 101, 58] }

/// The tokens of `s` from position `i` on; spaces separate tokens, and
/// anything that is no token ends the sequence with `Error`.
pub open spec fn lex_from(s: Seq<u8>, i: int) -> Seq<Token>
    decreases s.len() - i,
{
    if i < 0 || i >= s.len() {
        Seq::empty()
    } else if s[i] == 32u8 {
        lex_from(s, i + 1)
    } else if text::is_digit(s[i]) {
        let r = 1 + text::digit_run(s, i + 1);
        proof { text::lemma_digit_run(s, i + 1); }
        let v = text::digits_value(s.subrange(i, i + r));
        if v <= i64::MAX {
            seq![Token::Num(v as i64)] + lex_from(s, i + r)
        } else {
            seq![Token::Error]
        }
    } else if text::matches_at(s, i, kw_time()) {
        seq![Token::Time] + lex_from(s, i + 5)
    } else if text::matches_at(s, i, kw_distance()) {
        seq![Token::Distance] + lex_from(s, i + 9)
    } else if s[i] == 10u8 {
        seq![Token::Newline] + lex_from(s, i + 1)
    } else {
        seq![Token::Error]
    }
}

/// Splits `s` into its tokens (see `lex_from`).
pub fn lex(s: &[u8]) -> (res: Vec<Token>)
    ensures
        res@ == lex_from(s@, 0),
{
    let mut out: Vec<Token> = Vec::new();
    let mut i: usize = 0;
    let time = vec![84u8, 105, 109, 101, 58];
    let distance = vec![68u8, 105, 115, 116, 97, 110, 99, 101, 58];
    assert(time@ =~= kw_time() && distance@ =~= kw_distance());
    while i < s.len()
        invariant
            i <= s.len(),
            out@ + lex_from(s@, i as int) == lex_from(s@, 0),
            time@ == kw_time(), distance@ == kw_distance(),
        decreases s.len() - i,
    {
        let c = s[i];
        if c == 32u8 {
            i += 1;
        } else if 48u8 <= c && c <= 57u8 {
            proof { text::lemma_digit_run(s@, i as int); }
            let (j, v) = scan_u64(s, i);
            match v {
                Some(n) if n <= 0x7fff_ffff_ffff_ffffu64 => {
                    out.push(Token::Num(n as i64));
                    assert(out@ + lex_from(s@, j as int) =~= lex_from(s@, 0));
                    i = j;
                },
                _ => {
                    out.push(Token::Error);
                    assert(out@ =~= lex_from(s@, 0));
                    return out;
                },
            }
        } else {
            let t = if starts_with_at(s, i, time.as_slice()) {
                (Token::Time, 5usize)
            } else if starts_with_at(s, i, distance.as_slice()) {
                (Token::Distance, 9usize)
            } else if c == 10u8 {
                (Token::Newline, 1usize)
            } else {
                (Token::Error, 0usize)
            };
            out.push(t.0);
            if t.1 == 0 {
                assert(out@ =~= lex_from(s@, 0));
                return out;
            }
            assert(out@ + lex_from(s@, i + t.1) =~= lex_from(s@, 0));
            i = i + t.1;
        }
    }
    assert(out@ =~= lex_from(s@, 0));
    out
}

/// The race sheet: race times and record distances.
#[derive(Debug, Clone)]
pub struct Doc {
    pub times: Vec<i64>,
    pub distances: Vec<i64>,
}

/// The numbers of a line read from token `p`, and the position after its
/// newline; `None` when a token other than a number comes first.
pub open spec fn nums_from(t: Seq<Token>, p: int) -> Option<(Seq<i64>, int)>
    decreases t.len() - p,
{
    if p < 0 || p >= t.len() {
        None
    } else {
        match t[p] {
            Token::Num(n) => match nums_from(t, p + 1) {
                Some((r, e)) => Some((seq![n] + r, e)),
                None => None,
            },
            Token::Newline => Some((Seq::empty(), p + 1)),
            _ => None,
        }
    }
}

/// Reads the numbers of a line from token `p` on (see `nums_from`).
pub fn parse_vec_num(toks: &[Token], p: usize) -> (res: Result<(Vec<i64>, usize), ParseError>)
    ensures
        match res {
            Ok((v, e)) => nums_from(toks@, p as int) == Some((v@, e as int)),
            Err(e) => e == ParseError::Syntax && nums_from(toks@, p as int) is None,
        },
{
    let mut ret: Vec<i64> = Vec::new();
    let mut q = p;
    while q < toks.len()
        invariant
            p <= q,
            nums_from(toks@, p as int) == match nums_from(toks@, q as int) {
                Some((r, e)) => Some((ret@ + r, e)),
                None => None,
            },
        decreases toks@.len() - q,
    {
        match toks[q] {
            Token::Num(n) => {
                let ghost before = ret@;
                ret.push(n);
                proof {
                    match nums_from(toks@, q + 1) {
                        Some((r, e)) => { assert(before + (seq![n] + r) =~= ret@ + r); },
                        None => {},
                    }
                }
                q += 1;
            },
            Token::Newline => {
                assert(ret@ + Seq::<i64>::empty() =~= ret@);
                return Ok((ret, q + 1));
            },
            _ => {
                return Err(ParseError::Syntax);
            },
        }
    }
    Err(ParseError::Syntax)
}

/// The race sheet that the tokens describe: the first token of each of the
/// two lines is skipped whatever it is, then come the line's numbers.
pub open spec fn doc_from_tokens(t: Seq<Token>) -> Option<(Seq<i64>, Seq<i64>)> {
    if t.len() < 1 {
        None
    } else {
        match nums_from(t, 1) {
            Some((times, e)) => if e < t.len() {
                match nums_from(t, e + 1) {
                    Some((dists, _)) => Some((times, dists)),
                    None => None,
                }
            } else {
                None
            },
            None => None,
        }
    }
}

/// The race sheet that `s` holds; the token stream ends with an extra newline.
pub open spec fn spec_doc(s: Seq<u8>) -> Option<(Seq<i64>, Seq<i64>)> {
    doc_from_tokens(lex_from(s, 0).push(Token::Newline))
}

/// Reads a race sheet; fails with `Syntax` where `spec_doc` is `None`.
pub fn input_gen(input: &str) -> (res: Result<Doc, ParseError>)
    ensures
        match res {
            Ok(d) => spec_doc(input.spec_bytes()) == Some((d.times@, d.distances@)),
            Err(e) => e == ParseError::Syntax && spec_doc(input.spec_bytes()) is None,
        },
{
    let mut toks = lex(input.as_bytes());
    toks.push(Token::Newline);
    let (times, e) = match parse_vec_num(toks.as_slice(), 1) {
        Ok(r) => r,
        Err(e) => { return Err(e); },
    };
    if e >= toks.len() {
        return Err(ParseError::Syntax);
    }
    let (distances, _) = match parse_vec_num(toks.as_slice(), e + 1) {
        Ok(r) => r,
        Err(e) => { return Err(e); },
    };
    Ok(Doc { times, distances })
}

/// 10 to the power `k`.
pub open spec fn pow10(k: nat) -> nat
    decreases k,
{
    if k == 0 { 1 } else { 10 * pow10((k - 1) as nat) }
}

/// The number of digits the part-two reading gives a number: the least `k`
/// with `10^k >= t`, the ceiling of its decimal logarithm.
pub open spec fn ceil_log10(t: int) -> nat
    recommends t >= 1,
{
    choose|k: nat| is_ceil_log10(t, k)
}

/// `10^k` reaches `t` and `10^(k-1)` does not.
pub open spec fn is_ceil_log10(t: int, k: nat) -> bool {
    pow10(k) >= t && (k == 0 || pow10((k - 1) as nat) < t)
}

/// Where `input_adapt_part2` can compute without overflow: every number is
/// positive, and every partial concatenation and power fits in an `i64`.
pub open spec fn adaptable(v: Seq<i64>) -> bool {
    &&& forall|k: int| 0 <= k < v.len() ==> #[trigger] v[k] >= 1
    &&& forall|k: int| 1 <= k <= v.len() ==> #[trigger] pow10(digits_after(v, k)) <= i64::MAX
    &&& forall|k: int| 0 <= k <= v.len() ==> #[trigger] tail_concat(v, k) <= i64::MAX
}

/// The number of digits that the numbers from position `k` on take.
pub open spec fn digits_after(v: Seq<i64>, k: int) -> nat
    decreases v.len() - k,
{
    if k < 0 || k >= v.len() { 0 } else { ceil_log10(v[k] as int) + digits_after(v, k + 1) }
}

/// The concatenation of the numbers from position `k` on.
pub open spec fn tail_concat(v: Seq<i64>, k: int) -> int
    decreases v.len() - k,
{
    if k < 0 || k >= v.len() { 0 } else { v[k] * pow10(digits_after(v, k + 1)) + tail_concat(v, k + 1) }
}

proof fn lemma_pow10_pos(k: nat)
    ensures
        pow10(k) >= 1,
    decreases k,
{
    if k > 0 { lemma_pow10_pos((k - 1) as nat); }
}

proof fn lemma_pow10_monotone(a: nat, b: nat)
    requires
        a <= b,
    ensures
        pow10(a) <= pow10(b),
    decreases b,
{
    if a < b {
        lemma_pow10_monotone(a, (b - 1) as nat);
        lemma_pow10_pos((b - 1) as nat);
    }
}

proof fn lemma_pow10_add(a: nat, b: nat)
    ensures
        pow10(a + b) == pow10(a) * pow10(b),
    decreases b,
{
    if b > 0 {
        let b1 = (b - 1) as nat;
        lemma_pow10_add(a, b1);
        let x = pow10(a);
        let y = pow10(b1);
        assert(((a + b) - 1) as nat == a + b1);
        assert(pow10(a + b) == 10 * pow10(a + b1));
        assert(pow10(b) == 10 * y);
        assert(x * (10 * y) == 10 * (x * y)) by (nonlinear_arith);
        assert(pow10(a + b) == pow10(a) * pow10(b));
    } else {
        assert(a + b == a);
        assert(pow10(0) == 1);
    }
}

/// The least `k` with `10^k >= t` (see `ceil_log10`).
fn digits(t: i64) -> (res: u32)
    requires
        t >= 1,
    ensures
        res == ceil_log10(t as int),
        res <= 19,
{
    let mut k: u32 = 0;
    let mut p: u128 = 1;
    assert(pow10(20) == 100_000_000_000_000_000_000) by { reveal_with_fuel(pow10, 21); }
    while p < t as u128
        invariant
            1 <= t,
            p as int == pow10(k as nat),
            k == 0 || pow10((k - 1) as nat) < t,
            k <= 19,
            p <= 10 * (i64::MAX as int),
            pow10(20) == 100_000_000_000_000_000_000,
        decreases 20 - k,
    {
        p = p * 10;
        k = k + 1;
        proof {
            if k > 19 {
                lemma_pow10_monotone(20, k as nat);
            }
        }
    }
    proof { lemma_ceil_log10(t as int, k as nat); }
    k
}

proof fn lemma_ceil_log10(t: int, k: nat)
    requires
        t >= 1,
        pow10(k) >= t,
        k == 0 || pow10((k - 1) as nat) < t,
    ensures
        ceil_log10(t) == k,
{
    assert(is_ceil_log10(t, k));
    let c = ceil_log10(t);
    assert(is_ceil_log10(t, c));
    if c < k {
        lemma_pow10_monotone(c, (k - 1) as nat);
    } else if c > k {
        lemma_pow10_monotone(k, (c - 1) as nat);
    }
}

proof fn lemma_digits_after_unfold(v: Seq<i64>, k: int)
    requires
        0 <= k < v.len(),
    ensures
        digits_after(v, k) == ceil_log10(v[k] as int) + digits_after(v, k + 1),
        tail_concat(v, k) == v[k] * pow10(digits_after(v, k + 1)) + tail_concat(v, k + 1),
{
}

proof fn lemma_tail_concat_nonneg(v: Seq<i64>, k: int)
    requires
        forall|j: int| 0 <= j < v.len() ==> #[trigger] v[j] >= 1,
    ensures
        tail_concat(v, k) >= 0,
    decreases v.len() - k,
{
    if 0 <= k < v.len() {
        lemma_tail_concat_nonneg(v, k + 1);
        lemma_pow10_pos(digits_after(v, k + 1));
        let a = v[k] as int;
        let b = pow10(digits_after(v, k + 1)) as int;
        assert(a * b >= 0) by (nonlinear_arith) requires a >= 1, b >= 1;
    }
}

/// The concatenation of the numbers of `v` (see `tail_concat`).
fn concat_digits(v: &Vec<i64>) -> (res: i64)
    requires
        adaptable(v@),
    ensures
        res == tail_concat(v@, 0),
{
    let mut acc: i64 = 0;
    let mut cur: u32 = 0;
    let mut k: usize = v.len();
    while k > 0
        invariant
            k <= v@.len(),
            adaptable(v@),
            acc == tail_concat(v@, k as int),
            cur == digits_after(v@, k as int),
            k >= 1 ==> cur <= 18,
        decreases k,
    {
        let t = v[k - 1];
        proof {
            lemma_digits_after_unfold(v@, k - 1);
            lemma_tail_concat_nonneg(v@, k as int);
            lemma_pow10_pos(cur as nat);
            assert(pow10(digits_after(v@, k as int)) <= i64::MAX);
        }
        let p = pow10_exec(cur);
        let d = digits(t);
        proof {
            let a = t as int;
            let b = p as int;
            assert(a * b >= 0) by (nonlinear_arith) requires a >= 1, b >= 1;
            assert(tail_concat(v@, k - 1) <= i64::MAX);
            assert(tail_concat(v@, k - 1) == t * p + acc);
            if k - 1 >= 1 {
                assert(pow10(digits_after(v@, k - 1)) <= i64::MAX);
                lemma_pow10_bound(digits_after(v@, k - 1));
            }
        }
        acc = t * p + acc;
        cur = cur + d;
        k -= 1;
    }
    acc
}

proof fn lemma_pow10_bound(k: nat)
    requires
        pow10(k) <= i64::MAX,
    ensures
        k <= 18,
{
    assert(pow10(19) == 10_000_000_000_000_000_000) by { reveal_with_fuel(pow10, 20); }
    if k > 18 {
        lemma_pow10_monotone(19, k);
    }
}

fn pow10_exec(k: u32) -> (res: i64)
    requires
        pow10(k as nat) <= i64::MAX,
    ensures
        res == pow10(k as nat),
{
    let mut r: i64 = 1;
    let mut j: u32 = 0;
    while j < k
        invariant
            j <= k,
            r == pow10(j as nat),
            pow10(k as nat) <= i64::MAX,
        decreases k - j,
    {
        proof { lemma_pow10_monotone((j + 1) as nat, k as nat); }
        r = r * 10;
        j += 1;
    }
    r
}

/// The part-two reading of the sheet: the numbers of each line written next
/// to each other as one number (see `tail_concat`).
pub fn input_adapt_part2(input: &Doc) -> (res: Doc)
    requires
        adaptable(input.times@),
        adaptable(input.distances@),
    ensures
        res.times@ == seq![tail_concat(input.times@, 0) as i64],
        res.distances@ == seq![tail_concat(input.distances@, 0) as i64],
{
    let time = concat_digits(&input.times);
    let distance = concat_digits(&input.distances);
    let res = Doc { times: vec![time], distances: vec![distance] };
    assert(res.times@ =~= seq![tail_concat(input.times@, 0) as i64]);
    assert(res.distances@ =~= seq![tail_concat(input.distances@, 0) as i64]);
    res
}

/// The distance the boat covers in a race of `t` milliseconds when the button is held `i` milliseconds.
pub open spec fn race_dist(t: int, i: int) -> int {
    i * (t - i)
}

/// The number of hold times `i` with `1 <= i < t - 1` that beat the record `d`.
pub open spec fn viable(t: int, d: int, i: int) -> int
    decreases t - 1 - i,
{
    if i >= t - 1 { 0 } else { (if race_dist(t, i) > d { 1int } else { 0int }) + viable(t, d, i + 1) }
}

/// Where `viable_count` computes without overflow.
pub open spec fn viable_ok(t: int, d: int) -> bool {
    &&& t > i64::MIN
    &&& forall|i: int| 1 <= i < t - 1 ==> #[trigger] race_dist(t, i) <= i64::MAX
}

proof fn lemma_viable_bounds(t: int, d: int, i: int)
    ensures
        0 <= viable(t, d, i),
        i >= 1 ==> viable(t, d, i) <= if t - 1 - i > 0 { t - 1 - i } else { 0 },
    decreases t - 1 - i,
{
    if i < t - 1 {
        lemma_viable_bounds(t, d, i + 1);
    }
}

/// The hold times from `j` up to `t - 2` that go further than `d`.
pub open spec fn winning_holds(t: int, d: int, j: int) -> Set<int> {
    Set::new(|i: int| j <= i < t - 1 && i * (t - i) > d)
}

/// The count from `j` is the number of winning hold times from `j` on.
pub proof fn lemma_viable_counts(t: int, d: int, j: int)
    ensures
        winning_holds(t, d, j).finite(),
        viable(t, d, j) == winning_holds(t, d, j).len(),
    decreases t - 1 - j,
{
    if j >= t - 1 {
        assert(winning_holds(t, d, j) =~= Set::<int>::empty());
    } else {
        lemma_viable_counts(t, d, j + 1);
        let rest = winning_holds(t, d, j + 1);
        if j * (t - j) > d {
            assert(winning_holds(t, d, j) =~= rest.insert(j));
            assert(!rest.contains(j));
        } else {
            assert(winning_holds(t, d, j) =~= rest);
        }
    }
}

/// The number of ways to win a race of duration `t` against the record `d`
/// (see `viable`).
pub fn viable_count(t: i64, d: i64) -> (res: i64)
    requires
        viable_ok(t as int, d as int),
    ensures
        res == viable(t as int, d as int, 1),
        res == winning_holds(t as int, d as int, 1).len(),
{
    proof {
        lemma_viable_counts(t as int, d as int, 1);
    }
    let mut ret: i64 = 0;
    let mut i: i64 = 1;
    let end = t - 1;
    while i < end
        invariant
            1 <= i,
            end == t - 1,
            viable_ok(t as int, d as int),
            ret + viable(t as int, d as int, i as int) == viable(t as int, d as int, 1),
            0 <= ret <= i,
        decreases end - i,
    {
        assert(race_dist(t as int, i as int) <= i64::MAX);
        let ghost ii = i as int;
        let ghost ti = t as int;
        assert(ii * (ti - ii) >= 0) by (nonlinear_arith) requires 1 <= ii, ii < ti - 1;
        let my_d = i * (t - i);
        if my_d > d {
            ret += 1;
        }
        i += 1;
    }
    ret
}

/// The product, over the first `k` races, of the ways to win.
pub open spec fn ways_product(doc: (Seq<i64>, Seq<i64>), k: int) -> int
    decreases k,
{
    if k <= 0 { 1 } else { ways_product(doc, k - 1) * viable(doc.0[k - 1] as int, doc.1[k - 1] as int, 1) }
}

/// The number of races: as many as both lines have.
pub open spec fn races(doc: (Seq<i64>, Seq<i64>)) -> int {
    if doc.0.len() < doc.1.len() { doc.0.len() as int } else { doc.1.len() as int }
}

/// Where `part1` computes without overflow.
pub open spec fn part1_ok(doc: (Seq<i64>, Seq<i64>)) -> bool {
    &&& forall|k: int| 0 <= k < races(doc) ==> viable_ok(#[trigger] doc.0[k] as int, doc.1[k] as int)
    &&& forall|k: int| 0 <= k <= races(doc) ==> #[trigger] ways_product(doc, k) <= i64::MAX
}

proof fn lemma_ways_nonneg(doc: (Seq<i64>, Seq<i64>), k: int)
    ensures
        ways_product(doc, k) >= 0,
    decreases k,
{
    if k > 0 {
        lemma_ways_nonneg(doc, k - 1);
        lemma_viable_bounds(doc.0[k - 1] as int, doc.1[k - 1] as int, 1);
        let a = ways_product(doc, k - 1);
        let b = viable(doc.0[k - 1] as int, doc.1[k - 1] as int, 1);
        assert(a * b >= 0) by (nonlinear_arith) requires a >= 0, b >= 0;
    }
}

/// The product, over the races, of the numbers of ways to win.
pub fn part1(input: &Doc) -> (res: Result<i64, ParseError>)
    requires
        part1_ok((input.times@, input.distances@)),
    ensures
        res == Ok::<i64, ParseError>(ways_product((input.times@, input.distances@), races((input.times@, input.distances@))) as i64),
{
    let ghost doc = (input.times@, input.distances@);
    let n = if input.times.len() < input.distances.len() { input.times.len() } else { input.distances.len() };
    let mut ret: i64 = 1;
    let mut k: usize = 0;
    while k < n
        invariant
            doc == (input.times@, input.distances@),
            n == races(doc),
            k <= n,
            part1_ok(doc),
            ret == ways_product(doc, k as int),
        decreases n - k,
    {
        assert(viable_ok(doc.0[k as int] as int, doc.1[k as int] as int));
        let c = viable_count(input.times[k], input.distances[k]);
        proof {
            lemma_ways_nonneg(doc, k as int);
            lemma_viable_bounds(doc.0[k as int] as int, doc.1[k as int] as int, 1);
            assert(ways_product(doc, k + 1) <= i64::MAX);
        }
        ret = ret * c;
        k += 1;
    }
    Ok(ret)
}

/// The number of ways to win the single long race of the part-two reading.
pub fn part2(input: &Doc) -> (res: Result<i64, ParseError>)
    requires
        adaptable(input.times@),
        adaptable(input.distances@),
        viable_ok(tail_concat(input.times@, 0), tail_concat(input.distances@, 0)),
    ensures
        res == Ok::<i64, ParseError>(viable(tail_concat(input.times@, 0), tail_concat(input.distances@, 0), 1) as i64),
{
    let adapted = input_adapt_part2(input);
    let ghost doc = (adapted.times@, adapted.distances@);
    proof {
        lemma_tail_concat_nonneg(input.times@, 0);
        lemma_tail_concat_nonneg(input.distances@, 0);
        assert(races(doc) == 1);
        assert(ways_product(doc, 0) == 1);
        let t = tail_concat(input.times@, 0);
        let d = tail_concat(input.distances@, 0);
        lemma_viable_bounds(t, d, 1);
        assert(ways_product(doc, 1) == viable(t, d, 1));
        assert forall|k: int| 0 <= k <= races(doc) implies #[trigger] ways_product(doc, k) <= i64::MAX by {
            if k == 1 {
                assert(viable(t, d, 1) <= t);
            }
        }
    }
    part1(&adapted)
}

} // verus!
