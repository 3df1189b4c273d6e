//! Scratchcards: winning numbers and copies of cards.
use vstd::prelude::*;
use vstd::string::StringSliceAdditionalSpecFns;
use std::collections::VecDeque;
use vstd::arithmetic::power2::pow2;
use crate::text;
use crate::text::{scan_u64, starts_with_at, ParseError};

verus! {

/// The tokens of the card list.
#[derive(Debug, Clone, Copy, PartialEq, Eq, Structural)]
pub enum Token {
    Card,
    Separator,
    Num(u32),
    Newline,
    Error,
}

pub open spec fn kw_card() -> Seq<u8> { seq![67u8, 97, 114, 100] }

/// The tokens of `s` from position `i` on; spaces and colons separate
/// tokens, and anything that is no token ends the sequence with `Error`.
pub open spec fn lex_from(s: Seq<u8>, i: int) -> Seq<Token>
    decreases s.len() - i,
{
    if i < 0 || i >= s.len() {
        Seq::empty()
    } else if s[i] == 32u8 || s[i] == 58u8 {
        lex_from(s, i + 1)
    } else if text::is_digit(s[i]) {
        let r = 1 + text::digit_run(s, i + 1);
        proof { text::lemma_digit_run(s, i + 1); }
        let v = text::digits_value(s.subrange(i, i + r));
        if v <= u32::MAX {
            seq![Token::Num(v as u32)] + lex_from(s, i + r)
        } else {
            seq![Token::Error]
        }
    } else if text::matches_at(s, i, kw_card()) {
        seq![Token::Card] + lex_from(s, i + 4)
    } else if s[i] == 124u8 {
        seq![Token::Separator] + lex_from(s, i + 1)
    } else if s[i] == 10u8 {
        seq![Token::Newline] + lex_from(s, i + 1)
    } else {
        seq![Token::Error]
    }
}

/// Splits `s` into its tokens (see `lex_from`).
pub fn lex(s: &[u8]) -> (res: Vec<Token>)
    ensures
        res@ == lex_from(s@, 0),
{
    let mut out: Vec<Token> = Vec::new();
    let mut i: usize = 0;
    let card = vec![67u8, 97, 114, 100];
    assert(card@ =~= kw_card());
    while i < s.len()
        invariant
            i <= s.len(),
            out@ + lex_from(s@, i as int) == lex_from(s@, 0),
            card@ == kw_card(),
        decreases s.len() - i,
    {
        let c = s[i];
        if c == 32u8 || c == 58u8 {
            i += 1;
        } else if 48u8 <= c && c <= 57u8 {
            proof { text::lemma_digit_run(s@, i as int); }
            let (j, v) = scan_u64(s, i);
            match v {
                Some(n) if n <= 0xffff_ffffu64 => {
                    out.push(Token::Num(n as u32));
                    assert(out@ + lex_from(s@, j as int) =~= lex_from(s@, 0));
                    i = j;
                },
                _ => {
                    out.push(Token::Error);
                    assert(out@ =~= lex_from(s@, 0));
                    return out;
                },
            }
        } else {
            let t = if starts_with_at(s, i, card.as_slice()) {
                (Token::Card, 4usize)
            } else if c == 124u8 {
                (Token::Separator, 1usize)
            } else if c == 10u8 {
                (Token::Newline, 1usize)
            } else {
                (Token::Error, 0usize)
            };
            out.push(t.0);
            if t.1 == 0 {
                assert(out@ =~= lex_from(s@, 0));
                return out;
            }
            assert(out@ + lex_from(s@, i + t.1) =~= lex_from(s@, 0));
            i = i + t.1;
        }
    }
    assert(out@ =~= lex_from(s@, 0));
    out
}

/// A scratchcard: its number and how many of its numbers win.
#[derive(Debug, Clone, Copy, PartialEq, Eq, Structural)]
pub struct Card {
    pub id: u32,
    pub points: u32,
}

impl Card {
    /// The card with number `id` and no winning numbers yet.
    pub fn new(id: u32) -> (res: Card)
        ensures
            res.id == id,
            res.points == 0,
    {
        Card { id, points: 0 }
    }
}

/// A card as its number and its count of winning numbers.
pub type CardV = (u32, nat);

pub open spec fn prepend(cs: Seq<CardV>, rest: Option<Seq<CardV>>) -> Option<Seq<CardV>> {
    match rest {
        Some(r) => Some(cs + r),
        None => None,
    }
}

/// The cards that the tokens from `p` on describe, `None` when they break the grammar.
pub open spec fn cards_from(t: Seq<Token>, p: int) -> Option<Seq<CardV>>
    decreases t.len() - p, 2int,
{
    if p < 0 || p >= t.len() {
        Some(Seq::empty())
    } else if t[p] != Token::Card || p + 1 >= t.len() {
        None
    } else {
        match t[p + 1] {
            Token::Num(id) => winning_from(t, p + 2, id, Seq::empty()),
            _ => None,
        }
    }
}

/// Reading the winning numbers `win` of card `id`, at token `p`.
pub open spec fn winning_from(t: Seq<Token>, p: int, id: u32, win: Seq<u32>) -> Option<Seq<CardV>>
    decreases t.len() - p, 1int,
{
    if p < 0 || p >= t.len() {
        None
    } else {
        match t[p] {
            Token::Num(n) => winning_from(t, p + 1, id, win.push(n)),
            Token::Separator => owned_from(t, p + 1, id, win, 0),
            _ => None,
        }
    }
}

/// Reading the numbers one has on card `id`, `pts` of them winning so far, at token `p`.
pub open spec fn owned_from(t: Seq<Token>, p: int, id: u32, win: Seq<u32>, pts: nat) -> Option<Seq<CardV>>
    decreases t.len() - p, 0int,
{
    if p < 0 || p >= t.len() {
        None
    } else {
        match t[p] {
            Token::Num(n) => owned_from(t, p + 1, id, win, pts + if win.contains(n) { 1nat } else { 0nat }),
            Token::Newline => prepend(seq![(id, pts)], cards_from(t, p + 1)),
            _ => None,
        }
    }
}

/// The cards of a card list; the token stream ends with an extra newline.
pub open spec fn spec_cards(s: Seq<u8>) -> Option<Seq<CardV>> {
    cards_from(lex_from(s, 0).push(Token::Newline), 0)
}

pub open spec fn card_view(c: Card) -> CardV {
    (c.id, c.points as nat)
}

/// `c` holds the card `cv`, its count cut to 32 bits.
pub open spec fn holds_card(c: Card, cv: CardV) -> bool {
    c.id == cv.0 && c.points == (cv.1 as u32)
}

fn contains(win: &Vec<u32>, n: u32) -> (res: bool)
    ensures
        res == win@.contains(n),
{
    let mut k: usize = 0;
    while k < win.len()
        invariant
            k <= win@.len(),
            forall|j: int| 0 <= j < k ==> win@[j] != n,
        decreases win@.len() - k,
    {
        if win[k] == n {
            return true;
        }
        k += 1;
    }
    false
}

/// Reads a card list; fails with `Syntax` where `spec_cards` is `None`.
#[verifier::loop_isolation(false)]
pub fn input_gen(input: &str) -> (res: Result<Vec<Card>, ParseError>)
    requires
        spec_cards(input.spec_bytes()) matches Some(cs) ==> forall|k: int| 0 <= k < cs.len() ==> #[trigger] cs[k].1 <= u32::MAX,
    ensures
        match res {
            Ok(v) => spec_cards(input.spec_bytes()) == Some(v@.map_values(|c: Card| card_view(c))),
            Err(e) => e == ParseError::Syntax && spec_cards(input.spec_bytes()) is None,
        },
{
    let mut toks = lex(input.as_bytes());
    toks.push(Token::Newline);
    let ghost t = toks@;
    let ghost total = cards_from(t, 0);
    let mut ret: Vec<Card> = Vec::new();
    let ghost mut done: Seq<CardV> = Seq::empty();
    let mut p: usize = 0;
    while p < toks.len()
        invariant
            t == toks@,
            total == cards_from(t, 0),
            total == spec_cards(input.spec_bytes()),
            total matches Some(cs) ==> forall|k: int| 0 <= k < cs.len() ==> #[trigger] cs[k].1 <= u32::MAX,
            p <= t.len(),
            ret@.len() == done.len(),
            forall|k: int| 0 <= k < done.len() ==> holds_card(#[trigger] ret@[k], done[k]),
            total == prepend(done, cards_from(t, p as int)),
        decreases t.len() - p,
    {
        if toks[p] != Token::Card || toks.len() - p < 2 {
            return Err(ParseError::Syntax);
        }
        let id = match toks[p + 1] {
            Token::Num(n) => n,
            _ => { return Err(ParseError::Syntax); },
        };
        let mut q = p + 2;
        let mut win: Vec<u32> = Vec::new();
        while q < toks.len() && toks[q] != Token::Separator
            invariant
                t == toks@,
                p + 2 <= q <= t.len(),
                total == prepend(done, winning_from(t, q as int, id, win@)),
            decreases t.len() - q,
        {
            match toks[q] {
                Token::Num(n) => { win.push(n); },
                _ => { return Err(ParseError::Syntax); },
            }
            q += 1;
        }
        if q >= toks.len() {
            return Err(ParseError::Syntax);
        }
        q += 1;
        let mut pts: usize = 0;
        while q < toks.len() && toks[q] != Token::Newline
            invariant
                t == toks@,
                p + 2 <= q <= t.len(),
                pts <= q,
                total == prepend(done, owned_from(t, q as int, id, win@, pts as nat)),
            decreases t.len() - q,
        {
            match toks[q] {
                Token::Num(n) => {
                    if contains(&win, n) {
                        pts += 1;
                    }
                },
                _ => { return Err(ParseError::Syntax); },
            }
            q += 1;
        }
        if q >= toks.len() {
            return Err(ParseError::Syntax);
        }
        let c = Card { id, points: pts as u32 };
        ret.push(c);
        proof {
            let cv = (id, pts as nat);
            match cards_from(t, q + 1) {
                Some(r) => { assert(done + (seq![cv] + r) =~= done.push(cv) + r); },
                None => {},
            }
            done = done.push(cv);
        }
        p = q + 1;
    }
    assert(cards_from(t, p as int) == Some(Seq::<CardV>::empty()));
    assert(done + Seq::<CardV>::empty() =~= done);
    assert(total == Some(done));
    let ghost rv = ret@.map_values(|c: Card| card_view(c));
    assert(rv =~= done) by {
        assert forall|k: int| 0 <= k < done.len() implies #[trigger] rv[k] == done[k] by {
            assert(done[k].1 <= u32::MAX);
            assert(holds_card(ret@[k], done[k]));
        }
    }
    Ok(ret)
}

/// The points a card scores: nothing without winning numbers, else 1 doubled
/// for each winning number after the first.
pub open spec fn score(p: nat) -> nat {
    if p == 0 { 0 } else { pow2((p - 1) as nat) }
}

/// A card with no winning number scores nothing, one with a single winning
/// number scores 1, and each further winning number doubles the score.
pub proof fn lemma_score_doubles(p: nat)
    ensures
        score(0) == 0,
        score(1) == 1,
        p >= 1 ==> score(p + 1) == 2 * score(p),
{
    vstd::arithmetic::power2::lemma2_to64();
    if p >= 1 {
        vstd::arithmetic::power2::lemma_pow2_unfold(p);
    }
}

/// The total score of the first `n` cards.
pub open spec fn total_score(cs: Seq<Card>, n: int) -> int
    decreases n,
{
    if n <= 0 { 0 } else { total_score(cs, n - 1) + score(cs[n - 1].points as nat) }
}

proof fn lemma_total_score_monotone(cs: Seq<Card>, a: int, b: int)
    requires
        0 <= a <= b,
    ensures
        0 <= total_score(cs, a) <= total_score(cs, b),
    decreases b,
{
    if a < b {
        lemma_total_score_monotone(cs, a, b - 1);
    } else if a > 0 {
        lemma_total_score_monotone(cs, a - 1, a - 1);
    }
}

/// The total score of the cards.
pub fn part1(input: &[Card]) -> (res: u32)
    requires
        forall|k: int| 0 <= k < input@.len() ==> #[trigger] input@[k].points <= 32,
        total_score(input@, input@.len() as int) <= u32::MAX,
    ensures
        res == total_score(input@, input@.len() as int),
{
    let mut sum: u32 = 0;
    let mut i: usize = 0;
    while i < input.len()
        invariant
            i <= input@.len(),
            forall|k: int| 0 <= k < input@.len() ==> #[trigger] input@[k].points <= 32,
            total_score(input@, input@.len() as int) <= u32::MAX,
            sum == total_score(input@, i as int),
        decreases input@.len() - i,
    {
        let c = input[i];
        proof {
            lemma_total_score_monotone(input@, i + 1, input@.len() as int);
            lemma_total_score_monotone(input@, i as int, i as int);
        }
        let s = if c.points == 0 {
            0
        } else {
            proof {
                vstd::bits::lemma_u32_pow2_no_overflow((c.points - 1) as nat);
                vstd::bits::lemma_u32_shl_is_mul(1, (c.points - 1) as u32);
            }
            1u32 << (c.points - 1)
        };
        sum = sum + s;
        i += 1;
    }
    sum
}

/// The number of copies of card `k` one ends up with: the original, plus one
/// for every copy of an earlier card `j` whose winning numbers reach card `k`
/// (those of card `j` win copies of the next `points` cards).
pub open spec fn copies(pts: Seq<nat>, k: int) -> int
    decreases k, k + 1,
{
    if k < 0 { 0 } else { 1 + incoming(pts, k, k) }
}

/// The copies of card `k` won by the cards before `j`.
pub open spec fn incoming(pts: Seq<nat>, k: int, j: int) -> int
    decreases k, j,
{
    if j <= 0 || k < 0 || j > k {
        0
    } else {
        incoming(pts, k, j - 1) + if k - (j - 1) <= pts[j - 1] { copies(pts, j - 1) } else { 0 }
    }
}

/// The number of cards one ends up with, copies included, over the first `n` cards.
pub open spec fn total_copies(pts: Seq<nat>, n: int) -> int
    decreases n,
{
    if n <= 0 { 0 } else { total_copies(pts, n - 1) + copies(pts, n - 1) }
}

pub open spec fn points_of(cs: Seq<Card>) -> Seq<nat> {
    cs.map_values(|c: Card| c.points as nat)
}

proof fn lemma_copies_pos(pts: Seq<nat>, k: int)
    ensures
        k >= 0 ==> copies(pts, k) >= 1,
    decreases k, k + 1,
{
    if k >= 0 {
        lemma_incoming_nonneg(pts, k, k);
    }
}

proof fn lemma_incoming_nonneg(pts: Seq<nat>, k: int, j: int)
    ensures
        incoming(pts, k, j) >= 0,
    decreases k, j,
{
    if j > 0 && k >= 0 && j <= k {
        lemma_incoming_nonneg(pts, k, j - 1);
        if j - 1 >= 0 {
            lemma_copies_pos(pts, j - 1);
        }
    }
}

proof fn lemma_incoming_monotone(pts: Seq<nat>, k: int, a: int, b: int)
    requires
        0 <= a <= b <= k,
    ensures
        incoming(pts, k, a) <= incoming(pts, k, b),
    decreases b,
{
    if a < b {
        lemma_incoming_monotone(pts, k, a, b - 1);
        lemma_copies_pos(pts, b - 1);
    }
}

proof fn lemma_total_copies_monotone(pts: Seq<nat>, a: int, b: int)
    requires
        0 <= a <= b,
    ensures
        0 <= total_copies(pts, a) <= total_copies(pts, b),
        b > a ==> copies(pts, b - 1) <= total_copies(pts, b),
    decreases b,
{
    if a < b {
        lemma_total_copies_monotone(pts, a, b - 1);
        lemma_copies_pos(pts, b - 1);
        lemma_total_copies_monotone(pts, 0, b - 1);
    } else if a > 0 {
        lemma_total_copies_monotone(pts, a - 1, a - 1);
        lemma_copies_pos(pts, a - 1);
    }
}

/// The number of cards one ends up with (see `copies`), computed by passing
/// each card's count of copies on to the cards it wins.
pub fn part2_fast(input: &[Card]) -> (res: u32)
    requires
        total_copies(points_of(input@), input@.len() as int) <= u32::MAX,
    ensures
        res == total_copies(points_of(input@), input@.len() as int),
{
    let ghost pts = points_of(input@);
    let n = input.len();
    let mut mult: Vec<u32> = Vec::new();
    while mult.len() < n
        invariant
            mult@.len() <= n,
            forall|m: int| 0 <= m < mult@.len() ==> mult@[m] == 1,
        decreases n - mult@.len(),
    {
        mult.push(1);
    }
    let mut sum: u32 = 0;
    let mut k: usize = 0;
    while k < n
        invariant
            n == input@.len(),
            pts == points_of(input@),
            mult@.len() == n,
            k <= n,
            total_copies(pts, n as int) <= u32::MAX,
            sum == total_copies(pts, k as int),
            forall|m: int| k <= m < n ==> #[trigger] mult@[m] == 1 + incoming(pts, m, k as int),
        decreases n - k,
    {
        proof {
            lemma_copies_pos(pts, k as int);
            lemma_total_copies_monotone(pts, k as int, k + 1);
            lemma_total_copies_monotone(pts, k + 1, n as int);
        }
        let cur = mult[k];
        assert(cur == copies(pts, k as int));
        sum = sum + cur;
        let p = input[k].points;
        assert(pts[k as int] == p);
        let mut i: u32 = 0;
        while i < p
            invariant
                n == input@.len(),
                pts == points_of(input@),
                mult@.len() == n,
                k < n,
                p == pts[k as int],
                cur == copies(pts, k as int),
                total_copies(pts, n as int) <= u32::MAX,
                i <= p,
                forall|m: int| k + 1 <= m < n ==> #[trigger] mult@[m] == 1 + incoming(pts, m, k as int)
                    + if m - k <= i { copies(pts, k as int) } else { 0 },
            decreases p - i,
        {
            if (i as usize) < n - k - 1 {
                let m = k + 1 + i as usize;
                proof {
                    lemma_copies_pos(pts, m as int);
                    lemma_incoming_monotone(pts, m as int, k + 1, m as int);
                    lemma_total_copies_monotone(pts, m as int, m + 1);
                    lemma_total_copies_monotone(pts, m + 1, n as int);
                    assert(incoming(pts, m as int, k + 1) == incoming(pts, m as int, k as int) + copies(pts, k as int));
                }
                mult.set(m, mult[m] + cur);
            }
            i += 1;
        }
        proof {
            assert forall|m: int| k + 1 <= m < n implies #[trigger] mult@[m] == 1 + incoming(pts, m, k + 1) by {
                assert(incoming(pts, m, k + 1) == incoming(pts, m, k as int)
                    + if m - k <= pts[k as int] { copies(pts, k as int) } else { 0 });
            }
        }
        k += 1;
    }
    sum
}

/// The number of cards that one instance of card `k` ends up accounting for:
/// itself, and recursively the copies of the cards its winning numbers win.
pub open spec fn subtree(pts: Seq<nat>, k: int) -> int
    decreases pts.len() - k, pts[k] + 1,
{
    if k < 0 || k >= pts.len() { 0 } else { 1 + children(pts, k, pts[k] as int) }
}

/// What the copies won by the first `i` winning numbers of card `k` account for.
pub open spec fn children(pts: Seq<nat>, k: int, i: int) -> int
    decreases pts.len() - k, i,
{
    if i <= 0 || k < 0 || k >= pts.len() {
        0
    } else {
        children(pts, k, i - 1) + if k + i < pts.len() { subtree(pts, k + i) } else { 0 }
    }
}

/// What the cards in the queue `q` account for together.
pub open spec fn queue_sum(pts: Seq<nat>, q: Seq<usize>) -> int
    decreases q.len(),
{
    if q.len() == 0 { 0 } else { queue_sum(pts, q.drop_last()) + subtree(pts, q.last() as int) }
}

/// The number of cards one ends up with, counted card instance by card instance.
pub open spec fn total_subtree(pts: Seq<nat>, n: int) -> int
    decreases n,
{
    if n <= 0 { 0 } else { total_subtree(pts, n - 1) + subtree(pts, n - 1) }
}

proof fn lemma_subtree_pos(pts: Seq<nat>, k: int)
    ensures
        0 <= k < pts.len() ==> subtree(pts, k) >= 1,
        subtree(pts, k) >= 0,
        forall|i: int| #[trigger] children(pts, k, i) >= 0,
    decreases pts.len() - k,
{
    assert forall|i: int| #[trigger] children(pts, k, i) >= 0 by {
        lemma_children_nonneg(pts, k, i);
    }
    lemma_subtree_nonneg(pts, k);
    if 0 <= k < pts.len() {
        lemma_children_nonneg(pts, k, pts[k] as int);
    }
}

proof fn lemma_children_nonneg(pts: Seq<nat>, k: int, i: int)
    ensures
        children(pts, k, i) >= 0,
    decreases pts.len() - k, i,
{
    if i > 0 && 0 <= k < pts.len() {
        lemma_children_nonneg(pts, k, i - 1);
        if k + i < pts.len() {
            lemma_subtree_nonneg(pts, k + i);
        }
    }
}

proof fn lemma_subtree_nonneg(pts: Seq<nat>, k: int)
    ensures
        subtree(pts, k) >= 0,
    decreases pts.len() - k, pts[k] + 1,
{
    if 0 <= k < pts.len() {
        lemma_children_nonneg(pts, k, pts[k] as int);
    }
}

proof fn lemma_queue_sum_nonneg(pts: Seq<nat>, q: Seq<usize>)
    ensures
        queue_sum(pts, q) >= 0,
    decreases q.len(),
{
    if q.len() > 0 {
        lemma_queue_sum_nonneg(pts, q.drop_last());
        lemma_subtree_nonneg(pts, q.last() as int);
    }
}

proof fn lemma_queue_sum_front(pts: Seq<nat>, q: Seq<usize>)
    requires
        q.len() > 0,
    ensures
        queue_sum(pts, q) == subtree(pts, q[0] as int) + queue_sum(pts, q.subrange(1, q.len() as int)),
    decreases q.len(),
{
    if q.len() > 1 {
        lemma_queue_sum_front(pts, q.drop_last());
        assert(q.drop_last().subrange(1, q.len() - 1) =~= q.subrange(1, q.len() as int).drop_last());
    } else {
        assert(q.subrange(1, q.len() as int) =~= Seq::<usize>::empty());
        assert(q.drop_last() =~= Seq::<usize>::empty());
    }
}

proof fn lemma_queue_sum_range(pts: Seq<nat>, m: usize)
    ensures
        queue_sum(pts, Seq::new(m as nat, |k: int| k as usize)) == total_subtree(pts, m as int),
    decreases m,
{
    if m > 0 {
        lemma_queue_sum_range(pts, (m - 1) as usize);
        assert(Seq::new(m as nat, |k: int| k as usize).drop_last() =~= Seq::new((m - 1) as nat, |k: int| k as usize));
    } else {
        assert(Seq::new(m as nat, |k: int| k as usize) =~= Seq::<usize>::empty());
    }
}

/// The number of cards one ends up with (see `total_subtree`), counted by
/// working through a queue of card instances. The cards must be numbered
/// 1, 2, ... in order, and a card's number plus its count of winning numbers
/// must fit in a `u32`.
pub fn part2_slow(input: &[Card]) -> (res: u32)
    requires
        forall|k: int| 0 <= k < input@.len() ==> #[trigger] input@[k].id == k + 1,
        forall|k: int| 0 <= k < input@.len() ==> k + (#[trigger] input@[k].points) <= u32::MAX,
        total_subtree(points_of(input@), input@.len() as int) <= u32::MAX,
    ensures
        res == total_subtree(points_of(input@), input@.len() as int),
{
    let ghost pts = points_of(input@);
    let ghost total = total_subtree(pts, input@.len() as int);
    let n = input.len();
    let mut queue: VecDeque<usize> = VecDeque::new();
    let mut k: usize = 0;
    while k < n
        invariant
            k <= n,
            n == input@.len(),
            queue@ == Seq::new(k as nat, |j: int| j as usize),
        decreases n - k,
    {
        queue.push_back(k);
        assert(queue@ =~= Seq::new((k + 1) as nat, |j: int| j as usize));
        k += 1;
    }
    proof { lemma_queue_sum_range(pts, n); }
    let mut sum: u32 = 0;
    loop
        invariant
            n == input@.len(),
            pts == points_of(input@),
            pts.len() == n,
            forall|k: int| 0 <= k < input@.len() ==> #[trigger] input@[k].id == k + 1,
            forall|k: int| 0 <= k < input@.len() ==> k + (#[trigger] input@[k].points) <= u32::MAX,
            total <= u32::MAX,
            sum + queue_sum(pts, queue@) == total,
            forall|j: int| 0 <= j < queue@.len() ==> #[trigger] queue@[j] < n,
        ensures
            sum == total,
        decreases queue_sum(pts, queue@),
    {
        let ghost before = queue@;
        match queue.pop_front() {
            None => {
                assert(queue@ =~= Seq::<usize>::empty());
                break;
            },
            Some(x) => {
                proof {
                    lemma_queue_sum_front(pts, before);
                    lemma_queue_sum_nonneg(pts, queue@);
                    lemma_subtree_pos(pts, x as int);
                }
                sum = sum + 1;
                let top = input[x];
                assert(pts[x as int] == top.points);
                let ghost rest = queue@;
                let mut i: u32 = 0;
                while i < top.points
                    invariant
                        n == input@.len(),
                        pts == points_of(input@),
                        pts.len() == n,
                        x < n,
                        top == input@[x as int],
                        top.id == x + 1,
                        x + top.points <= u32::MAX,
                        forall|k: int| 0 <= k < input@.len() ==> #[trigger] input@[k].id == k + 1,
                        i <= top.points,
                        queue_sum(pts, queue@) == queue_sum(pts, rest) + children(pts, x as int, i as int),
                        forall|j: int| 0 <= j < queue@.len() ==> #[trigger] queue@[j] < n,
                    decreases top.points - i,
                {
                    let idx = (top.id + i) as usize;
                    if idx < n {
                        let ghost q0 = queue@;
                        queue.push_back(idx);
                        assert(queue@.drop_last() =~= q0);
                    }
                    i += 1;
                }
                assert(children(pts, x as int, pts[x as int] as int) + 1 == subtree(pts, x as int));
            },
        }
    }
    sum
}

/// The sum of `f(i)` over `0 <= i < n`.
pub open spec fn sum_to(f: spec_fn(int) -> int, n: int) -> int
    decreases n,
{
    if n <= 0 { 0 } else { sum_to(f, n - 1) + f(n - 1) }
}

proof fn lemma_sum_ext(f: spec_fn(int) -> int, g: spec_fn(int) -> int, n: int)
    requires
        forall|i: int| 0 <= i < n ==> #[trigger] f(i) == g(i),
    ensures
        sum_to(f, n) == sum_to(g, n),
    decreases n,
{
    if n > 0 {
        lemma_sum_ext(f, g, n - 1);
    }
}

proof fn lemma_sum_lin(f: spec_fn(int) -> int, g: spec_fn(int) -> int, h: spec_fn(int) -> int, a: int, b: int, n: int)
    requires
        forall|i: int| 0 <= i < n ==> #[trigger] h(i) == a * f(i) + b * g(i),
    ensures
        sum_to(h, n) == a * sum_to(f, n) + b * sum_to(g, n),
    decreases n,
{
    if n > 0 {
        lemma_sum_lin(f, g, h, a, b, n - 1);
        let (sf, sg) = (sum_to(f, n - 1), sum_to(g, n - 1));
        let (fi, gi) = (f(n - 1), g(n - 1));
        assert(a * (sf + fi) + b * (sg + gi) == (a * sf + b * sg) + (a * fi + b * gi)) by (nonlinear_arith);
    }
}

/// Two functions that differ only at `p`.
proof fn lemma_sum_point(g: spec_fn(int) -> int, h: spec_fn(int) -> int, n: int, p: int)
    requires
        forall|i: int| 0 <= i < n && i != p ==> #[trigger] g(i) == h(i),
    ensures
        sum_to(g, n) == sum_to(h, n) + (if 0 <= p < n { g(p) - h(p) } else { 0 }),
    decreases n,
{
    if n > 0 {
        lemma_sum_point(g, h, n - 1, p);
    }
}

proof fn lemma_sum_swap(f: spec_fn(int, int) -> int, a: int, b: int)
    requires
        a >= 0,
    ensures
        sum_to(|k: int| sum_to(|c: int| f(k, c), b), a) == sum_to(|c: int| sum_to(|k: int| f(k, c), a), b),
    decreases a,
{
    if a == 0 {
        let rows0 = |c: int| sum_to(|k: int| f(k, c), a);
        lemma_sum_lin(rows0, rows0, rows0, 0, 0, b);
    } else {
        lemma_sum_swap(f, a - 1, b);
        let rows = |c: int| sum_to(|k: int| f(k, c), a);
        let rows1 = |c: int| sum_to(|k: int| f(k, c), a - 1);
        let last = |c: int| f(a - 1, c);
        assert forall|c: int| 0 <= c < b implies #[trigger] rows(c) == 1 * rows1(c) + 1 * last(c) by {
        }
        lemma_sum_lin(rows1, last, rows, 1, 1, b);
        assert(sum_to(|k: int| sum_to(|c: int| f(k, c), b), a)
            == sum_to(|k: int| sum_to(|c: int| f(k, c), b), a - 1) + sum_to(|c: int| f(a - 1, c), b));
        lemma_sum_ext(|c: int| f(a - 1, c), last, b);
    }
}

/// Card `c` is one of those that card `k` wins copies of.
pub open spec fn wins(pts: Seq<nat>, k: int, c: int) -> bool {
    0 <= k < c && c <= k + pts[k] && c < pts.len()
}

proof fn lemma_children_sum(pts: Seq<nat>, k: int, i: int)
    requires
        0 <= k < pts.len(),
        i >= 0,
    ensures
        children(pts, k, i) == sum_to(|c: int| if k < c <= k + i && c < pts.len() { subtree(pts, c) } else { 0 }, pts.len() as int),
    decreases i,
{
    let n = pts.len() as int;
    let g = |c: int| if k < c <= k + i && c < n { subtree(pts, c) } else { 0 };
    if i == 0 {
        lemma_sum_lin(g, g, g, 0, 0, n);
    } else {
        lemma_children_sum(pts, k, i - 1);
        let h = |c: int| if k < c <= k + (i - 1) && c < n { subtree(pts, c) } else { 0 };
        lemma_sum_point(g, h, n, k + i);
    }
}

proof fn lemma_incoming_sum(pts: Seq<nat>, c: int, j: int)
    requires
        0 <= j <= c < pts.len(),
    ensures
        incoming(pts, c, j) == sum_to(|k: int| if k < j && c - k <= pts[k] { copies(pts, k) } else { 0 }, pts.len() as int),
    decreases j,
{
    let n = pts.len() as int;
    let g = |k: int| if k < j && c - k <= pts[k] { copies(pts, k) } else { 0 };
    if j == 0 {
        lemma_sum_lin(g, g, g, 0, 0, n);
    } else {
        lemma_incoming_sum(pts, c, j - 1);
        let h = |k: int| if k < j - 1 && c - k <= pts[k] { copies(pts, k) } else { 0 };
        lemma_sum_point(g, h, n, j - 1);
    }
}

proof fn lemma_total_copies_sum(pts: Seq<nat>, n: int)
    ensures
        total_copies(pts, n) == sum_to(|k: int| copies(pts, k), n),
    decreases n,
{
    if n > 0 {
        lemma_total_copies_sum(pts, n - 1);
    }
}

proof fn lemma_total_subtree_sum(pts: Seq<nat>, n: int)
    ensures
        total_subtree(pts, n) == sum_to(|k: int| subtree(pts, k), n),
    decreases n,
{
    if n > 0 {
        lemma_total_subtree_sum(pts, n - 1);
    }
}

/// Counting the copies of each card (`part2_fast`) and counting the cards
/// that each card instance accounts for (`part2_slow`) give the same
/// number of cards.
pub proof fn lemma_fast_slow_agree(pts: Seq<nat>)
    ensures
        total_copies(pts, pts.len() as int) == total_subtree(pts, pts.len() as int),
{
    let n = pts.len() as int;
    let cp = |k: int| copies(pts, k);
    let st = |c: int| subtree(pts, c);
    let f = |k: int, c: int| if wins(pts, k, c) { copies(pts, k) * subtree(pts, c) } else { 0 };
    // The weight of the children of each card, and of the parents.
    let kids = |k: int| sum_to(|c: int| if wins(pts, k, c) { subtree(pts, c) } else { 0 }, n);
    let pars = |c: int| sum_to(|k: int| if wins(pts, k, c) { copies(pts, k) } else { 0 }, n);
    assert forall|k: int| 0 <= k < n implies #[trigger] kids(k) == st(k) - 1 by {
        lemma_children_sum(pts, k, pts[k] as int);
        lemma_sum_ext(|c: int| if wins(pts, k, c) { subtree(pts, c) } else { 0 },
            |c: int| if k < c <= k + pts[k] && c < n { subtree(pts, c) } else { 0 }, n);
    }
    assert forall|c: int| 0 <= c < n implies #[trigger] pars(c) == cp(c) - 1 by {
        lemma_incoming_sum(pts, c, c);
        lemma_sum_ext(|k: int| if wins(pts, k, c) { copies(pts, k) } else { 0 },
            |k: int| if k < c && c - k <= pts[k] { copies(pts, k) } else { 0 }, n);
    }
    // Each row of `f` is a multiple of `kids`, each column of `pars`.
    let rowsum = |k: int| sum_to(|c: int| f(k, c), n);
    let colsum = |c: int| sum_to(|k: int| f(k, c), n);
    assert forall|k: int| 0 <= k < n implies #[trigger] rowsum(k) == cp(k) * st(k) - cp(k) by {
        let inner = |c: int| if wins(pts, k, c) { subtree(pts, c) } else { 0 };
        let zero = |c: int| 0int;
        assert forall|c: int| 0 <= c < n implies #[trigger] f(k, c) == cp(k) * inner(c) + 0 * zero(c) by {}
        lemma_sum_lin(inner, zero, |c: int| f(k, c), cp(k), 0, n);
        assert(kids(k) == sum_to(inner, n));
        assert(cp(k) * (st(k) - 1) == cp(k) * st(k) - cp(k)) by (nonlinear_arith);
    }
    assert forall|c: int| 0 <= c < n implies #[trigger] colsum(c) == cp(c) * st(c) - st(c) by {
        let inner = |k: int| if wins(pts, k, c) { copies(pts, k) } else { 0 };
        let zero = |k: int| 0int;
        assert forall|k: int| 0 <= k < n implies #[trigger] f(k, c) == st(c) * inner(k) + 0 * zero(k) by {
            assert(copies(pts, k) * subtree(pts, c) == subtree(pts, c) * copies(pts, k)) by (nonlinear_arith);
        }
        lemma_sum_lin(inner, zero, |k: int| f(k, c), st(c), 0, n);
        assert(pars(c) == sum_to(inner, n));
        assert(st(c) * (cp(c) - 1) == cp(c) * st(c) - st(c)) by (nonlinear_arith);
    }
    lemma_sum_swap(f, n, n);
    let prod = |k: int| cp(k) * st(k);
    lemma_sum_lin(prod, cp, rowsum, 1, -1, n);
    lemma_sum_lin(prod, st, colsum, 1, -1, n);
    lemma_sum_ext(rowsum, |k: int| sum_to(|c: int| f(k, c), n), n);
    lemma_sum_ext(colsum, |c: int| sum_to(|k: int| f(k, c), n), n);
    lemma_total_copies_sum(pts, n);
    lemma_total_subtree_sum(pts, n);
    lemma_sum_ext(cp, |k: int| copies(pts, k), n);
    lemma_sum_ext(st, |k: int| subtree(pts, k), n);
}

} // verus!
