//! Camel cards: ranking poker-like hands.
use vstd::prelude::*;
use vstd::string::StringSliceAdditionalSpecFns;
use crate::text;
use crate::text::{scan_u64, ParseError};

verus! {

/// The card faces, weakest first; `Joker` only appears in the part-two reading.
#[derive(Debug, Clone, Copy, PartialEq, Eq, Structural)]
pub enum Card {
    Joker,
    N2,
    N3,
    N4,
    N5,
    N6,
    N7,
    N8,
    N9,
    T,
    J,
    Q,
    K,
    A,
}

/// The strength of a card: 0 for the joker up to 13 for the ace.
pub open spec fn card_rank(c: Card) -> int {
    match c {
        Card::Joker => 0, Card::N2 => 1, Card::N3 => 2, Card::N4 => 3, Card::N5 => 4,
        Card::N6 => 5, Card::N7 => 6, Card::N8 => 7, Card::N9 => 8, Card::T => 9,
        Card::J => 10, Card::Q => 11, Card::K => 12, Card::A => 13,
    }
}

fn rank_of(c: Card) -> (res: usize)
    ensures
        res == card_rank(c),
{
    match c {
        Card::Joker => 0, Card::N2 => 1, Card::N3 => 2, Card::N4 => 3, Card::N5 => 4,
        Card::N6 => 5, Card::N7 => 6, Card::N8 => 7, Card::N9 => 8, Card::T => 9,
        Card::J => 10, Card::Q => 11, Card::K => 12, Card::A => 13,
    }
}

/// The card that a character of the hand list names.
pub open spec fn card_of(c: u8) -> Option<Card> {
    if c == 50u8 { Some(Card::N2) } else if c == 51u8 { Some(Card::N3) }
    else if c == 52u8 { Some(Card::N4) } else if c == 53u8 { Some(Card::N5) }
    else if c == 54u8 { Some(Card::N6) } else if c == 55u8 { Some(Card::N7) }
    else if c == 56u8 { Some(Card::N8) } else if c == 57u8 { Some(Card::N9) }
    else if c == 84u8 { Some(Card::T) } else if c == 74u8 { Some(Card::J) }
    else if c == 81u8 { Some(Card::Q) } else if c == 75u8 { Some(Card::K) }
    else if c == 65u8 { Some(Card::A) } else { None }
}

fn card_of_byte(c: u8) -> (res: Option<Card>)
    ensures
        res == card_of(c),
{
    if c == 50u8 { Some(Card::N2) } else if c == 51u8 { Some(Card::N3) }
    else if c == 52u8 { Some(Card::N4) } else if c == 53u8 { Some(Card::N5) }
    else if c == 54u8 { Some(Card::N6) } else if c == 55u8 { Some(Card::N7) }
    else if c == 56u8 { Some(Card::N8) } else if c == 57u8 { Some(Card::N9) }
    else if c == 84u8 { Some(Card::T) } else if c == 74u8 { Some(Card::J) }
    else if c == 81u8 { Some(Card::Q) } else if c == 75u8 { Some(Card::K) }
    else if c == 65u8 { Some(Card::A) } else { None }
}

/// The tokens of the hand list.
#[derive(Debug, Clone, Copy, PartialEq, Eq, Structural)]
pub enum Token {
    Card(Card),
    Num(i64),
    Newline,
    Error,
}

/// The tokens of `s` from position `i` on: a card character, a space followed
/// by a number, or a newline; anything else ends the sequence with `Error`.
pub open spec fn lex_from(s: Seq<u8>, i: int) -> Seq<Token>
    decreases s.len() - i,
{
    if i < 0 || i >= s.len() {
        Seq::empty()
    } else if card_of(s[i]) is Some {
        seq![Token::Card(card_of(s[i]).unwrap())] + lex_from(s, i + 1)
    } else if s[i] == 32u8 && i + 1 < s.len() && text::is_digit(s[i + 1]) {
        let r = 1 + text::digit_run(s, i + 2);
        proof { text::lemma_digit_run(s, i + 2); }
        let v = text::digits_value(s.subrange(i + 1, i + 1 + r));
        if v <= i64::MAX {
            seq![Token::Num(v as i64)] + lex_from(s, i + 1 + r)
        } else {
            seq![Token::Error]
        }
    } else if s[i] == 10u8 {
        seq![Token::Newline] + lex_from(s, i + 1)
    } else {
        seq![Token::Error]
    }
}

/// Splits `s` into its tokens (see `lex_from`).
pub fn lex(s: &[u8]) -> (res: Vec<Token>)
    ensures
        res@ == lex_from(s@, 0),
{
    let mut out: Vec<Token> = Vec::new();
    let mut i: usize = 0;
    while i < s.len()
        invariant
            i <= s.len(),
            out@ + lex_from(s@, i as int) == lex_from(s@, 0),
        decreases s.len() - i,
    {
        let c = s[i];
        match card_of_byte(c) {
            Some(card) => {
                out.push(Token::Card(card));
                assert(out@ + lex_from(s@, i + 1) =~= lex_from(s@, 0));
                i += 1;
            },
            None => {
                if c == 32u8 && i + 1 < s.len() && 48u8 <= s[i + 1] && s[i + 1] <= 57u8 {
                    proof { text::lemma_digit_run(s@, i + 1); }
                    let (j, v) = scan_u64(s, i + 1);
                    match v {
                        Some(n) if n <= 0x7fff_ffff_ffff_ffffu64 => {
                            out.push(Token::Num(n as i64));
                            assert(out@ + lex_from(s@, j as int) =~= lex_from(s@, 0));
                            i = j;
                        },
                        _ => {
                            out.push(Token::Error);
                            assert(out@ =~= lex_from(s@, 0));
                            return out;
                        },
                    }
                } else if c == 10u8 {
                    out.push(Token::Newline);
                    assert(out@ + lex_from(s@, i + 1) =~= lex_from(s@, 0));
                    i += 1;
                } else {
                    out.push(Token::Error);
                    assert(out@ =~= lex_from(s@, 0));
                    return out;
                }
            },
        }
    }
    assert(out@ =~= lex_from(s@, 0));
    out
}

/// A hand of five cards and its bid.
#[derive(Debug, Clone, Copy, PartialEq, Eq)]
pub struct Hand {
    pub cards: [Card; 5],
    pub bid: i64,
}

/// A hand as its cards and its bid.
pub type HandV = (Seq<Card>, i64);

pub open spec fn hand_view(h: Hand) -> HandV {
    (h.cards@, h.bid)
}

/// The hands that the tokens from `p` on describe: five cards, a bid and a
/// newline each; `None` when they break that pattern.
pub open spec fn hands_from(t: Seq<Token>, p: int) -> Option<Seq<HandV>>
    decreases t.len() - p,
{
    if p < 0 || p >= t.len() {
        Some(Seq::empty())
    } else if p + 7 > t.len() {
        None
    } else if (forall|k: int| p <= k < p + 5 ==> #[trigger] t[k] is Card) && t[p + 5] is Num && t[p + 6] == Token::Newline {
        match hands_from(t, p + 7) {
            Some(r) => Some(seq![(Seq::new(5, |k: int| t[p + k]->Card_0), t[p + 5]->Num_0)] + r),
            None => None,
        }
    } else {
        None
    }
}

/// The hands of a hand list; the token stream ends with an extra newline.
pub open spec fn spec_hands(s: Seq<u8>) -> Option<Seq<HandV>> {
    hands_from(lex_from(s, 0).push(Token::Newline), 0)
}

/// Reads a hand list; fails with `Syntax` where `spec_hands` is `None`.
#[verifier::loop_isolation(false)]
pub fn input_gen(input: &str) -> (res: Result<Vec<Hand>, ParseError>)
    ensures
        match res {
            Ok(v) => spec_hands(input.spec_bytes()) == Some(v@.map_values(|h: Hand| hand_view(h))),
            Err(e) => e == ParseError::Syntax && spec_hands(input.spec_bytes()) is None,
        },
{
    let mut toks = lex(input.as_bytes());
    toks.push(Token::Newline);
    let ghost t = toks@;
    let mut hands: Vec<Hand> = Vec::new();
    let mut p: usize = 0;
    while p < toks.len()
        invariant
            t == toks@,
            t == lex_from(input.spec_bytes(), 0).push(Token::Newline),
            p <= t.len(),
            hands_from(t, 0) == match hands_from(t, p as int) {
                Some(r) => Some(hands@.map_values(|h: Hand| hand_view(h)) + r),
                None => None,
            },
        decreases t.len() - p,
    {
        if toks.len() - p < 7 {
            return Err(ParseError::Syntax);
        }
        let mut cards = [Card::N2; 5];
        let mut k: usize = 0;
        while k < 5
            invariant
                k <= 5,
                p + 7 <= t.len(),
                t == toks@,
                forall|j: int| p <= j < p + k ==> #[trigger] t[j] is Card && cards@[j - p] == t[j]->Card_0,
            decreases 5 - k,
        {
            match toks[p + k] {
                Token::Card(c) => {
                    cards[k] = c;
                },
                _ => {
                    assert(!(forall|j: int| p <= j < p + 5 ==> #[trigger] t[j] is Card));
                    return Err(ParseError::Syntax);
                },
            }
            k += 1;
        }
        let bid = match toks[p + 5] {
            Token::Num(n) => n,
            _ => { return Err(ParseError::Syntax); },
        };
        if toks[p + 6] != Token::Newline {
            return Err(ParseError::Syntax);
        }
        let h = Hand { cards, bid };
        assert forall|j: int| 0 <= j < 5 implies #[trigger] hand_view(h).0[j] == t[p + j]->Card_0 by {
            assert(t[p + j] is Card);
        }
        assert(hand_view(h).0 =~= Seq::new(5, |k: int| t[p + k]->Card_0));
        let ghost before = hands@.map_values(|h: Hand| hand_view(h));
        hands.push(h);
        proof {
            assert(hands@.map_values(|h: Hand| hand_view(h)) =~= before.push(hand_view(h)));
            match hands_from(t, p + 7) {
                Some(r) => { assert(before + (seq![hand_view(h)] + r) =~= before.push(hand_view(h)) + r); },
                None => {},
            }
        }
        p = p + 7;
    }
    assert(hands@.map_values(|h: Hand| hand_view(h)) + Seq::<HandV>::empty() =~= hands@.map_values(|h: Hand| hand_view(h)));
    Ok(hands)
}

/// The kinds of hands, weakest first.
#[derive(Debug, Clone, Copy, PartialEq, Eq, Structural)]
pub enum HandKind {
    High,
    OnePair,
    TwoPair,
    Three,
    Full,
    Four,
    Five,
}

pub open spec fn kind_rank(k: HandKind) -> int {
    match k {
        HandKind::High => 0, HandKind::OnePair => 1, HandKind::TwoPair => 2, HandKind::Three => 3,
        HandKind::Full => 4, HandKind::Four => 5, HandKind::Five => 6,
    }
}

/// How many of `cards` have strength `r`.
pub open spec fn card_count(cards: Seq<Card>, r: int) -> nat
    decreases cards.len(),
{
    if cards.len() == 0 {
        0
    } else {
        card_count(cards.drop_last(), r) + if card_rank(cards.last()) == r { 1nat } else { 0nat }
    }
}

/// The largest count of a non-joker face of strength below `hi`, and the
/// weakest such face with that count (0 when there is none).
pub open spec fn best(cards: Seq<Card>, hi: int) -> (nat, int)
    decreases hi,
{
    if hi <= 1 {
        (0, 0)
    } else {
        let b = best(cards, hi - 1);
        if card_count(cards, hi - 1) > b.0 { (card_count(cards, hi - 1), hi - 1) } else { b }
    }
}

/// The largest count of a non-joker face of strength below `hi` other than `excl`.
pub open spec fn second(cards: Seq<Card>, hi: int, excl: int) -> nat
    decreases hi,
{
    if hi <= 1 {
        0
    } else {
        let b = second(cards, hi - 1, excl);
        if hi - 1 != excl && card_count(cards, hi - 1) > b { card_count(cards, hi - 1) } else { b }
    }
}

/// The kind of a hand whose largest group of equal cards has `a` cards and
/// whose next largest group has `b` cards.
pub open spec fn classify(a: int, b: int) -> HandKind {
    if a == 5 { HandKind::Five }
    else if a == 4 { HandKind::Four }
    else if a == 3 && b == 2 { HandKind::Full }
    else if a == 3 { HandKind::Three }
    else if a == 2 && b == 2 { HandKind::TwoPair }
    else if a == 2 { HandKind::OnePair }
    else { HandKind::High }
}

/// The kind of a hand: the jokers join the largest group of equal cards.
pub open spec fn spec_hand_kind(cards: Seq<Card>) -> HandKind {
    let b = best(cards, 14);
    classify((b.0 + card_count(cards, 0)) as int, second(cards, 14, b.1) as int)
}

proof fn lemma_count_step(cards: Seq<Card>, k: int, r: int)
    requires
        0 <= k < cards.len(),
    ensures
        card_count(cards.take(k + 1), r) == card_count(cards.take(k), r) + if card_rank(cards[k]) == r { 1nat } else { 0nat },
{
    assert(cards.take(k + 1).drop_last() =~= cards.take(k));
}

/// The kind of a hand (see `spec_hand_kind`).
pub fn hand_kind(hand: [Card; 5]) -> (res: HandKind)
    ensures
        res == spec_hand_kind(hand@),
{
    let ghost cards = hand@;
    let mut counts: Vec<u32> = vec![0u32, 0, 0, 0, 0, 0, 0, 0, 0, 0, 0, 0, 0, 0];
    let mut k: usize = 0;
    assert(cards.take(0) =~= Seq::<Card>::empty());
    while k < 5
        invariant
            k <= 5,
            cards == hand@,
            counts@.len() == 14,
            forall|r: int| 0 <= r < 14 ==> #[trigger] counts@[r] == card_count(cards.take(k as int), r),
            forall|r: int| 0 <= r < 14 ==> counts@[r] <= k,
        decreases 5 - k,
    {
        let r = rank_of(hand[k]);
        let ghost before = counts@;
        counts.set(r, counts[r] + 1);
        proof {
            assert forall|q: int| 0 <= q < 14 implies #[trigger] counts@[q] == card_count(cards.take(k + 1), q) by {
                lemma_count_step(cards, k as int, q);
            }
        }
        k += 1;
    }
    assert(cards.take(5) =~= cards);
    let mut m1: u32 = 0;
    let mut i1: usize = 0;
    let mut r: usize = 1;
    while r < 14
        invariant
            1 <= r <= 14,
            counts@.len() == 14,
            forall|q: int| 0 <= q < 14 ==> #[trigger] counts@[q] == card_count(cards, q),
            forall|q: int| 0 <= q < 14 ==> counts@[q] <= 5,
            m1 <= 5,
            best(cards, r as int) == (m1 as nat, i1 as int),
        decreases 14 - r,
    {
        if counts[r] > m1 {
            m1 = counts[r];
            i1 = r;
        }
        r += 1;
    }
    let mut m2: u32 = 0;
    let mut r: usize = 1;
    while r < 14
        invariant
            1 <= r <= 14,
            counts@.len() == 14,
            forall|q: int| 0 <= q < 14 ==> #[trigger] counts@[q] == card_count(cards, q),
            forall|q: int| 0 <= q < 14 ==> counts@[q] <= 5,
            m1 <= 5,
            second(cards, r as int, i1 as int) == m2,
        decreases 14 - r,
    {
        if r != i1 && counts[r] > m2 {
            m2 = counts[r];
        }
        r += 1;
    }
    let a = m1 + counts[0];
    if a == 5 { HandKind::Five }
    else if a == 4 { HandKind::Four }
    else if a == 3 && m2 == 2 { HandKind::Full }
    else if a == 3 { HandKind::Three }
    else if a == 2 && m2 == 2 { HandKind::TwoPair }
    else if a == 2 { HandKind::OnePair }
    else { HandKind::High }
}

/// The strength of a hand as one number: its kind, then its cards in order,
/// each a digit in base 14, so that comparing keys compares hands.
pub open spec fn hand_key(cards: Seq<Card>) -> int {
    kind_rank(spec_hand_kind(cards)) * 537824
        + card_rank(cards[0]) * 38416 + card_rank(cards[1]) * 2744
        + card_rank(cards[2]) * 196 + card_rank(cards[3]) * 14 + card_rank(cards[4])
}

/// Hands are ordered by kind first; hands of one kind are ordered by their
/// first card that differs, and hands of one kind with the same cards
/// throughout are equal.
pub proof fn lemma_hand_order(a: Seq<Card>, b: Seq<Card>, i: int)
    requires
        a.len() == 5,
        b.len() == 5,
    ensures
        kind_rank(spec_hand_kind(a)) < kind_rank(spec_hand_kind(b)) ==> hand_key(a) < hand_key(b),
        kind_rank(spec_hand_kind(a)) == kind_rank(spec_hand_kind(b)) && 0 <= i < 5
            && (forall|j: int| 0 <= j < i ==> card_rank(#[trigger] a[j]) == card_rank(b[j]))
            && card_rank(a[i]) < card_rank(b[i]) ==> hand_key(a) < hand_key(b),
        kind_rank(spec_hand_kind(a)) == kind_rank(spec_hand_kind(b))
            && (forall|j: int| 0 <= j < 5 ==> card_rank(#[trigger] a[j]) == card_rank(b[j])) ==> hand_key(a) == hand_key(b),
{
    assert forall|c: Card| 0 <= #[trigger] card_rank(c) <= 13 by {}
    let ka = kind_rank(spec_hand_kind(a));
    let kb = kind_rank(spec_hand_kind(b));
    if ka == kb && 0 <= i < 5 && (forall|j: int| 0 <= j < i ==> card_rank(#[trigger] a[j]) == card_rank(b[j]))
        && card_rank(a[i]) < card_rank(b[i]) {
        if i >= 1 { assert(card_rank(a[0]) == card_rank(b[0])); }
        if i >= 2 { assert(card_rank(a[1]) == card_rank(b[1])); }
        if i >= 3 { assert(card_rank(a[2]) == card_rank(b[2])); }
        if i >= 4 { assert(card_rank(a[3]) == card_rank(b[3])); }
        assert(0 <= card_rank(a[0]) <= 13 && 0 <= card_rank(b[0]) <= 13);
        assert(0 <= card_rank(a[1]) <= 13 && 0 <= card_rank(b[1]) <= 13);
        assert(0 <= card_rank(a[2]) <= 13 && 0 <= card_rank(b[2]) <= 13);
        assert(0 <= card_rank(a[3]) <= 13 && 0 <= card_rank(b[3]) <= 13);
        assert(0 <= card_rank(a[4]) <= 13 && 0 <= card_rank(b[4]) <= 13);
    }
    if ka < kb {
        assert(0 <= card_rank(a[0]) <= 13 && 0 <= card_rank(b[0]) <= 13);
        assert(0 <= card_rank(a[1]) <= 13 && 0 <= card_rank(b[1]) <= 13);
        assert(0 <= card_rank(a[2]) <= 13 && 0 <= card_rank(b[2]) <= 13);
        assert(0 <= card_rank(a[3]) <= 13 && 0 <= card_rank(b[3]) <= 13);
        assert(0 <= card_rank(a[4]) <= 13 && 0 <= card_rank(b[4]) <= 13);
    }
    if ka == kb && (forall|j: int| 0 <= j < 5 ==> card_rank(#[trigger] a[j]) == card_rank(b[j])) {
        assert(card_rank(a[0]) == card_rank(b[0]));
        assert(card_rank(a[1]) == card_rank(b[1]));
        assert(card_rank(a[2]) == card_rank(b[2]));
        assert(card_rank(a[3]) == card_rank(b[3]));
        assert(card_rank(a[4]) == card_rank(b[4]));
    }
}

proof fn lemma_best_max(cards: Seq<Card>, hi: int)
    requires
        1 <= hi,
    ensures
        forall|r: int| 1 <= r < hi ==> #[trigger] card_count(cards, r) <= best(cards, hi).0,
        best(cards, hi).0 == 0 || (1 <= best(cards, hi).1 < hi && best(cards, hi).0 == card_count(cards, best(cards, hi).1)),
    decreases hi,
{
    if hi > 1 {
        lemma_best_max(cards, hi - 1);
        assert forall|r: int| 1 <= r < hi implies #[trigger] card_count(cards, r) <= best(cards, hi).0 by {
            if r < hi - 1 {
                assert(card_count(cards, r) <= best(cards, hi - 1).0);
            }
        }
    }
}

proof fn lemma_two_counts(cards: Seq<Card>, r: int)
    requires
        r != 0,
    ensures
        card_count(cards, r) + card_count(cards, 0) <= cards.len(),
        card_count(cards, r) + card_count(cards, 0) == cards.len() <==> forall|i: int| 0 <= i < cards.len()
            ==> #[trigger] card_rank(cards[i]) == r || card_rank(cards[i]) == 0,
    decreases cards.len(),
{
    if cards.len() > 0 {
        let p = cards.drop_last();
        lemma_two_counts(p, r);
        let n = cards.len() - 1;
        if card_count(cards, r) + card_count(cards, 0) == cards.len() {
            assert forall|i: int| 0 <= i < cards.len() implies #[trigger] card_rank(cards[i]) == r || card_rank(cards[i]) == 0 by {
                if i < n {
                    assert(p[i] == cards[i]);
                    assert(card_rank(p[i]) == r || card_rank(p[i]) == 0);
                }
            }
        }
        if forall|i: int| 0 <= i < cards.len() ==> #[trigger] card_rank(cards[i]) == r || card_rank(cards[i]) == 0 {
            assert forall|i: int| 0 <= i < p.len() implies #[trigger] card_rank(p[i]) == r || card_rank(p[i]) == 0 by {
                assert(p[i] == cards[i]);
                assert(card_rank(cards[i]) == r || card_rank(cards[i]) == 0);
            }
            assert(card_rank(cards[n]) == r || card_rank(cards[n]) == 0);
        }
    }
}

/// A hand is five of a kind exactly when all its cards other than jokers
/// are of one face.
pub proof fn lemma_five_of_a_kind(cards: Seq<Card>)
    requires
        cards.len() == 5,
    ensures
        spec_hand_kind(cards) == HandKind::Five <==> forall|i: int, j: int| #![trigger cards[i], cards[j]]
            0 <= i < 5 && 0 <= j < 5 ==> cards[i] == Card::Joker || cards[j] == Card::Joker
                || card_rank(cards[i]) == card_rank(cards[j]),
{
    let b = best(cards, 14);
    let jk = card_count(cards, 0);
    lemma_best_max(cards, 14);
    assert forall|c: Card| (#[trigger] card_rank(c) == 0) <==> c == Card::Joker by {}
    assert forall|c: Card| 0 <= #[trigger] card_rank(c) <= 13 by {}
    if b.0 != 0 {
        lemma_two_counts(cards, b.1);
    }
    let all_one = forall|i: int, j: int| #![trigger cards[i], cards[j]]
        0 <= i < 5 && 0 <= j < 5 ==> cards[i] == Card::Joker || cards[j] == Card::Joker
            || card_rank(cards[i]) == card_rank(cards[j]);
    if b.0 + jk == 5 {
        if b.0 == 0 {
            lemma_two_counts(cards, 1);
            assert(card_count(cards, 1) <= b.0);
            assert forall|i: int| 0 <= i < 5 implies #[trigger] card_rank(cards[i]) == 1 || card_rank(cards[i]) == 0 by {}
            assert forall|i: int, j: int| #![trigger cards[i], cards[j]]
                0 <= i < 5 && 0 <= j < 5 implies cards[i] == Card::Joker || cards[j] == Card::Joker
                    || card_rank(cards[i]) == card_rank(cards[j]) by {
                assert(card_rank(cards[i]) == 1 || card_rank(cards[i]) == 0);
            }
        } else {
            assert forall|i: int, j: int| #![trigger cards[i], cards[j]]
                0 <= i < 5 && 0 <= j < 5 implies cards[i] == Card::Joker || cards[j] == Card::Joker
                    || card_rank(cards[i]) == card_rank(cards[j]) by {
                assert(card_rank(cards[i]) == b.1 || card_rank(cards[i]) == 0);
                assert(card_rank(cards[j]) == b.1 || card_rank(cards[j]) == 0);
            }
        }
        assert(all_one);
    }
    if all_one {
        let k = if cards[0] != Card::Joker { 0int } else if cards[1] != Card::Joker { 1int }
            else if cards[2] != Card::Joker { 2int } else if cards[3] != Card::Joker { 3int } else { 4int };
        let r = card_rank(cards[k]);
        if r == 0 {
            assert forall|i: int| 0 <= i < 5 implies #[trigger] card_rank(cards[i]) == 1 || card_rank(cards[i]) == 0 by {
                assert(cards[k] == Card::Joker);
                if i != k {
                    assert(cards[i] == Card::Joker || cards[k] == Card::Joker || card_rank(cards[i]) == card_rank(cards[k]));
                }
            }
            lemma_two_counts(cards, 1);
            assert(jk + card_count(cards, 1) == 5);
            assert(card_count(cards, 1) <= b.0);
        } else {
            assert forall|i: int| 0 <= i < 5 implies #[trigger] card_rank(cards[i]) == r || card_rank(cards[i]) == 0 by {
                assert(cards[i] == Card::Joker || cards[k] == Card::Joker || card_rank(cards[i]) == card_rank(cards[k]));
            }
            lemma_two_counts(cards, r);
            assert(card_count(cards, r) <= b.0);
        }
        assert(b.0 + jk == 5);
    }
}

fn kind_rank_exec(k: HandKind) -> (res: u64)
    ensures
        res == kind_rank(k),
{
    match k {
        HandKind::High => 0, HandKind::OnePair => 1, HandKind::TwoPair => 2, HandKind::Three => 3,
        HandKind::Full => 4, HandKind::Four => 5, HandKind::Five => 6,
    }
}

#[verifier::rlimit(40)]
fn key_of(hand: &Hand) -> (res: u64)
    ensures
        res == hand_key(hand.cards@),
{
    let k = kind_rank_exec(hand_kind(hand.cards));
    k * 537824 + rank_of(hand.cards[0]) as u64 * 38416 + rank_of(hand.cards[1]) as u64 * 2744
        + rank_of(hand.cards[2]) as u64 * 196 + rank_of(hand.cards[3]) as u64 * 14 + rank_of(hand.cards[4]) as u64
}

/// Compares two hands: by kind first, then card by card.
pub fn hand_cmp(a: &Hand, b: &Hand) -> (res: std::cmp::Ordering)
    ensures
        (res == std::cmp::Ordering::Less) == (hand_key(a.cards@) < hand_key(b.cards@)),
        (res == std::cmp::Ordering::Equal) == (hand_key(a.cards@) == hand_key(b.cards@)),
        (res == std::cmp::Ordering::Greater) == (hand_key(a.cards@) > hand_key(b.cards@)),
{
    let ka = key_of(a);
    let kb = key_of(b);
    if ka < kb {
        std::cmp::Ordering::Less
    } else if ka == kb {
        std::cmp::Ordering::Equal
    } else {
        std::cmp::Ordering::Greater
    }
}

/// The place of hand `i` when the hands are sorted by strength, equal hands
/// keeping their order: 1 for the weakest.
pub open spec fn rank(hs: Seq<HandV>, i: int) -> int {
    (1 + hs.filter(|h: HandV| hand_key(h.0) < hand_key(hs[i].0)).len()
      + hs.take(i).filter(|h: HandV| hand_key(h.0) == hand_key(hs[i].0)).len()) as int
}

/// The total winnings: each bid times the rank of its hand.
pub open spec fn winnings(hs: Seq<HandV>, n: int) -> int
    decreases n,
{
    if n <= 0 { 0 } else { winnings(hs, n - 1) + rank(hs, n - 1) * hs[n - 1].1 }
}

pub open spec fn hands_view(hs: Seq<Hand>) -> Seq<HandV> {
    hs.map_values(|h: Hand| hand_view(h))
}

proof fn lemma_winnings_monotone(hs: Seq<HandV>, a: int, b: int)
    requires
        0 <= a <= b <= hs.len(),
        forall|k: int| 0 <= k < hs.len() ==> #[trigger] hs[k].1 >= 0,
    ensures
        0 <= winnings(hs, a) <= winnings(hs, b),
    decreases b,
{
    if a < b {
        lemma_winnings_monotone(hs, a, b - 1);
        lemma_rank_pos(hs, b - 1);
        let r = rank(hs, b - 1);
        let bid = hs[b - 1].1 as int;
        assert(r * bid >= 0) by (nonlinear_arith) requires r >= 1, bid >= 0;
    } else if a > 0 {
        lemma_winnings_monotone(hs, a - 1, a - 1);
        lemma_rank_pos(hs, a - 1);
        let r = rank(hs, a - 1);
        let bid = hs[a - 1].1 as int;
        assert(r * bid >= 0) by (nonlinear_arith) requires r >= 1, bid >= 0;
    }
}

proof fn lemma_rank_pos(hs: Seq<HandV>, i: int)
    ensures
        rank(hs, i) >= 1,
{
}

proof fn lemma_filter_step(hs: Seq<HandV>, j: int, p: spec_fn(HandV) -> bool)
    requires
        0 <= j < hs.len(),
    ensures
        hs.take(j + 1).filter(p).len() == hs.take(j).filter(p).len() + if p(hs[j]) { 1int } else { 0int },
{
    reveal(Seq::filter);
    assert(hs.take(j + 1).drop_last() =~= hs.take(j));
    assert(hs.take(j + 1).last() == hs[j]);
}

/// The number of hands of `hs` that come before hand `i` in the ranking.
fn count_below(hands: &[Hand], i: usize, keys: &Vec<u64>) -> (res: usize)
    requires
        i < hands@.len(),
        keys@.len() == hands@.len(),
        forall|k: int| 0 <= k < hands@.len() ==> #[trigger] keys@[k] == hand_key(hands@[k].cards@),
    ensures
        res + 1 == rank(hands_view(hands@), i as int),
{
    let ghost hs = hands_view(hands@);
    let ghost key_i = hand_key(hs[i as int].0);
    let ghost p_less = |h: HandV| hand_key(h.0) < key_i;
    let ghost p_eq = |h: HandV| hand_key(h.0) == key_i;
    assert(hs[i as int] == hand_view(hands@[i as int]));
    let mut less: usize = 0;
    let mut eq: usize = 0;
    let mut j: usize = 0;
    assert(hs.take(0) =~= Seq::<HandV>::empty());
    proof { reveal(Seq::filter); }
    while j < hands.len()
        invariant
            j <= hands@.len(),
            hs == hands_view(hands@),
            keys@.len() == hands@.len(),
            forall|k: int| 0 <= k < hands@.len() ==> #[trigger] keys@[k] == hand_key(hands@[k].cards@),
            key_i == hand_key(hs[i as int].0),
            keys@[i as int] == key_i,
            i < hands@.len(),
            less == hs.take(j as int).filter(p_less).len(),
            eq == hs.take(if j < i { j as int } else { i as int }).filter(p_eq).len(),
            less + eq <= j,
            p_less == (|h: HandV| hand_key(h.0) < key_i),
            p_eq == (|h: HandV| hand_key(h.0) == key_i),
        decreases hands@.len() - j,
    {
        assert(hs[j as int] == hand_view(hands@[j as int]));
        assert(p_less(hs[j as int]) == (keys@[j as int] < keys@[i as int]));
        assert(p_eq(hs[j as int]) == (keys@[j as int] == keys@[i as int]));
        proof {
            lemma_filter_step(hs, j as int, p_less);
            if j < i { lemma_filter_step(hs, j as int, p_eq); }
        }
        if keys[j] < keys[i] {
            less += 1;
        }
        if j < i && keys[j] == keys[i] {
            eq += 1;
        }
        j += 1;
    }
    assert(hs.take(hands@.len() as int) =~= hs);
    less + eq
}

/// The total winnings of the hands (see `winnings`).
pub fn part1(input: &[Hand]) -> (res: i64)
    requires
        forall|k: int| 0 <= k < input@.len() ==> #[trigger] input@[k].bid >= 0,
        winnings(hands_view(input@), input@.len() as int) <= i64::MAX,
    ensures
        res == winnings(hands_view(input@), input@.len() as int),
{
    let ghost hs = hands_view(input@);
    let mut keys: Vec<u64> = Vec::new();
    let mut k: usize = 0;
    while k < input.len()
        invariant
            k <= input@.len(),
            keys@.len() == k,
            forall|j: int| 0 <= j < k ==> #[trigger] keys@[j] == hand_key(input@[j].cards@),
        decreases input@.len() - k,
    {
        keys.push(key_of(&input[k]));
        k += 1;
    }
    let mut acc: i64 = 0;
    let mut i: usize = 0;
    while i < input.len()
        invariant
            i <= input@.len(),
            hs == hands_view(input@),
            keys@.len() == input@.len(),
            forall|j: int| 0 <= j < input@.len() ==> #[trigger] keys@[j] == hand_key(input@[j].cards@),
            forall|j: int| 0 <= j < input@.len() ==> #[trigger] input@[j].bid >= 0,
            winnings(hs, input@.len() as int) <= i64::MAX,
            acc == winnings(hs, i as int),
        decreases input@.len() - i,
    {
        let below = count_below(input, i, &keys);
        let bid = input[i].bid;
        assert(hs[i as int].1 == bid);
        proof {
            assert forall|j: int| 0 <= j < hs.len() implies #[trigger] hs[j].1 >= 0 by {
                assert(hs[j] == hand_view(input@[j]));
            }
            lemma_winnings_monotone(hs, i as int, i + 1);
            lemma_winnings_monotone(hs, i + 1, input@.len() as int);
        }
        let term: i128 = (below as i128 + 1) * (bid as i128);
        acc = acc + term as i64;
        i += 1;
    }
    acc
}

/// A hand with its jacks read as jokers.
pub open spec fn jokered(h: HandV) -> HandV {
    (h.0.map_values(|c: Card| if c == Card::J { Card::Joker } else { c }), h.1)
}

/// The total winnings when jacks are jokers.
pub fn part2(input: &[Hand]) -> (res: i64)
    requires
        forall|k: int| 0 <= k < input@.len() ==> #[trigger] input@[k].bid >= 0,
        winnings(hands_view(input@).map_values(|h: HandV| jokered(h)), input@.len() as int) <= i64::MAX,
    ensures
        res == winnings(hands_view(input@).map_values(|h: HandV| jokered(h)), input@.len() as int),
{
    let mut hands: Vec<Hand> = Vec::new();
    let mut k: usize = 0;
    while k < input.len()
        invariant
            k <= input@.len(),
            hands@.len() == k,
            forall|j: int| 0 <= j < k ==> hand_view(#[trigger] hands@[j]) == jokered(hand_view(input@[j])),
        decreases input@.len() - k,
    {
        let mut h = input[k];
        let mut c: usize = 0;
        while c < 5
            invariant
                c <= 5,
                h.bid == input@[k as int].bid,
                forall|j: int| 0 <= j < c ==> h.cards@[j] == (if input@[k as int].cards@[j] == Card::J { Card::Joker } else { input@[k as int].cards@[j] }),
                forall|j: int| c <= j < 5 ==> h.cards@[j] == input@[k as int].cards@[j],
            decreases 5 - c,
        {
            if h.cards[c] == Card::J {
                h.cards[c] = Card::Joker;
            }
            c += 1;
        }
        assert(hand_view(h).0 =~= jokered(hand_view(input@[k as int])).0);
        hands.push(h);
        k += 1;
    }
    assert(hands_view(hands@) =~= hands_view(input@).map_values(|h: HandV| jokered(h)));
    part1(hands.as_slice())
}

} // verus!
