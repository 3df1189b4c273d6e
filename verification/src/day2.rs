//! Cube conundrum: games of cubes drawn from a bag.
use vstd::prelude::*;
use vstd::string::StringSliceAdditionalSpecFns;
use crate::text;
use crate::text::{scan_u64, starts_with_at, ParseError};

verus! {

/// The tokens of the game record format.
#[derive(Debug, Clone, Copy, PartialEq, Eq, Structural)]
pub enum Token {
    Game,
    Red,
    Green,
    Blue,
    Num(u32),
    Comma,
    Semicolon,
    Newline,
    Error,
}

pub open spec fn kw_game() -> Seq<u8> { seq![71u8, 97, 109, 101] }
pub open spec fn kw_red() -> Seq<u8> { seq![114u8, 101, 100] }
pub open spec fn kw_green() -> Seq<u8> { seq![103u8, 114, 101, 101, 110] }
pub open spec fn kw_blue() -> Seq<u8> { seq![98u8, 108, 117, 101] }

/// The tokens of `s` from position `i` on. Spaces and colons separate tokens;
/// anything that is no token ends the sequence with `Error`.
pub open spec fn lex_from(s: Seq<u8>, i: int) -> Seq<Token>
    decreases s.len() - i,
{
    if i < 0 || i >= s.len() {
        Seq::empty()
    } else if s[i] == 32u8 || s[i] == 58u8 {
        lex_from(s, i + 1)
    } else if text::is_digit(s[i]) {
        let r = 1 + text::digit_run(s, i + 1);
        proof { text::lemma_digit_run(s, i + 1); }
        let v = text::digits_value(s.subrange(i, i + r));
        if v <= u32::MAX {
            seq![Token::Num(v as u32)] + lex_from(s, i + r)
        } else {
            seq![Token::Error]
        }
    } else if text::matches_at(s, i, kw_game()) {
        seq![Token::Game] + lex_from(s, i + 4)
    } else if text::matches_at(s, i, kw_red()) {
        seq![Token::Red] + lex_from(s, i + 3)
    } else if text::matches_at(s, i, kw_green()) {
        seq![Token::Green] + lex_from(s, i + 5)
    } else if text::matches_at(s, i, kw_blue()) {
        seq![Token::Blue] + lex_from(s, i + 4)
    } else if s[i] == 44u8 {
        seq![Token::Comma] + lex_from(s, i + 1)
    } else if s[i] == 59u8 {
        seq![Token::Semicolon] + lex_from(s, i + 1)
    } else if s[i] == 10u8 {
        seq![Token::Newline] + lex_from(s, i + 1)
    } else {
        seq![Token::Error]
    }
}

/// Splits `s` into its tokens (see `lex_from`).
pub fn lex(s: &[u8]) -> (res: Vec<Token>)
    ensures
        res@ == lex_from(s@, 0),
{
    let mut out: Vec<Token> = Vec::new();
    let mut i: usize = 0;
    let game = vec![71u8, 97, 109, 101];
    let red = vec![114u8, 101, 100];
    let green = vec![103u8, 114, 101, 101, 110];
    let blue = vec![98u8, 108, 117, 101];
    assert(game@ =~= kw_game() && red@ =~= kw_red() && green@ =~= kw_green() && blue@ =~= kw_blue());
    while i < s.len()
        invariant
            i <= s.len(),
            out@ + lex_from(s@, i as int) == lex_from(s@, 0),
            game@ == kw_game(), red@ == kw_red(), green@ == kw_green(), blue@ == kw_blue(),
        decreases s.len() - i,
    {
        let c = s[i];
        if c == 32u8 || c == 58u8 {
            i += 1;
        } else if 48u8 <= c && c <= 57u8 {
            proof { text::lemma_digit_run(s@, i as int); }
            let (j, v) = scan_u64(s, i);
            match v {
                Some(n) if n <= 0xffff_ffffu64 => {
                    out.push(Token::Num(n as u32));
                    assert(out@ + lex_from(s@, j as int) =~= lex_from(s@, 0));
                    i = j;
                },
                _ => {
                    out.push(Token::Error);
                    assert(out@ =~= lex_from(s@, 0));
                    return out;
                },
            }
        } else {
            let t = if starts_with_at(s, i, game.as_slice()) {
                (Token::Game, 4usize)
            } else if starts_with_at(s, i, red.as_slice()) {
                (Token::Red, 3usize)
            } else if starts_with_at(s, i, green.as_slice()) {
                (Token::Green, 5usize)
            } else if starts_with_at(s, i, blue.as_slice()) {
                (Token::Blue, 4usize)
            } else if c == 44u8 {
                (Token::Comma, 1usize)
            } else if c == 59u8 {
                (Token::Semicolon, 1usize)
            } else if c == 10u8 {
                (Token::Newline, 1usize)
            } else {
                (Token::Error, 0usize)
            };
            out.push(t.0);
            if t.1 == 0 {
                assert(out@ =~= lex_from(s@, 0));
                return out;
            }
            assert(out@ + lex_from(s@, i + t.1) =~= lex_from(s@, 0));
            i = i + t.1;
        }
    }
    assert(out@ =~= lex_from(s@, 0));
    out
}

/// The cubes of each colour shown in one round.
#[derive(Debug, Clone, Copy, PartialEq, Eq, Structural)]
pub struct Round {
    pub blue: u32,
    pub green: u32,
    pub red: u32,
}

/// A game: its number and its rounds.
#[derive(Debug, Clone)]
pub struct Game {
    pub id: u32,
    pub rounds: Vec<Round>,
}

impl Game {
    /// A game with the given number and no rounds.
    pub fn new(id: u32) -> (res: Game)
        ensures
            res.id == id,
            res.rounds@.len() == 0,
    {
        Game { id, rounds: Vec::new() }
    }
}

/// A round as counts of blue, green and red cubes.
pub type RoundV = (nat, nat, nat);
/// A game as its number and its rounds.
pub type GameV = (u32, Seq<RoundV>);

pub open spec fn round_view(r: Round) -> RoundV {
    (r.blue as nat, r.green as nat, r.red as nat)
}

pub open spec fn game_view(g: Game) -> GameV {
    (g.id, g.rounds@.map_values(|r: Round| round_view(r)))
}

/// Adds `n` cubes of the colour `c` to the round `r`; `None` when `c` is no colour.
pub open spec fn add_cubes(r: RoundV, c: Token, n: u32) -> Option<RoundV> {
    match c {
        Token::Blue => Some(((r.0 + n) as nat, r.1, r.2)),
        Token::Green => Some((r.0, (r.1 + n) as nat, r.2)),
        Token::Red => Some((r.0, r.1, (r.2 + n) as nat)),
        _ => None,
    }
}

pub open spec fn prepend(gs: Seq<GameV>, rest: Option<Seq<GameV>>) -> Option<Seq<GameV>> {
    match rest {
        Some(r) => Some(gs + r),
        None => None,
    }
}

/// The games that the tokens from `p` on describe, `None` when they break the grammar.
pub open spec fn games_from(t: Seq<Token>, p: int) -> Option<Seq<GameV>>
    decreases t.len() - p, 1int,
{
    if p < 0 || p >= t.len() {
        Some(Seq::empty())
    } else if t[p] != Token::Game || p + 1 >= t.len() {
        None
    } else {
        match t[p + 1] {
            Token::Num(id) => rounds_from(t, p + 2, id, Seq::empty(), (0, 0, 0)),
            _ => None,
        }
    }
}

/// The games described from position `p` on, where `p` is inside game `id`
/// whose finished rounds are `rounds` and whose current round is `round`.
pub open spec fn rounds_from(t: Seq<Token>, p: int, id: u32, rounds: Seq<RoundV>, round: RoundV) -> Option<Seq<GameV>>
    decreases t.len() - p, 0int,
{
    if p < 0 || p + 1 >= t.len() {
        None
    } else {
        match (t[p], add_cubes(round, t[p + 1], 0)) {
            (Token::Num(n), Some(_)) => {
                let r2 = add_cubes(round, t[p + 1], n).unwrap();
                if p + 2 >= t.len() {
                    Some(seq![(id, rounds.push(r2))])
                } else {
                    match t[p + 2] {
                        Token::Comma => rounds_from(t, p + 3, id, rounds, r2),
                        Token::Semicolon => rounds_from(t, p + 3, id, rounds.push(r2), (0, 0, 0)),
                        Token::Newline => prepend(seq![(id, rounds.push(r2))], games_from(t, p + 3)),
                        _ => None,
                    }
                }
            },
            _ => None,
        }
    }
}

/// The games of a game record, or `None` when the text does not follow the format.
pub open spec fn spec_games(input: Seq<u8>) -> Option<Seq<GameV>> {
    games_from(lex_from(input, 0), 0)
}

/// Whether every cube count of the games fits in a `u32`.
pub open spec fn counts_fit(gs: Seq<GameV>) -> bool {
    forall|i: int, j: int| 0 <= i < gs.len() && 0 <= j < gs[i].1.len() ==>
        (#[trigger] gs[i].1[j]).0 <= u32::MAX && gs[i].1[j].1 <= u32::MAX && gs[i].1[j].2 <= u32::MAX
}

/// A round with each count cut to 32 bits (the identity on counts that fit).
pub open spec fn trunc_round(r: RoundV) -> RoundV {
    ((r.0 as u32) as nat, (r.1 as u32) as nat, (r.2 as u32) as nat)
}

/// `g` holds the game `gv`, counts cut to 32 bits.
pub open spec fn holds_game(g: Game, gv: GameV) -> bool {
    &&& g.id == gv.0
    &&& g.rounds@.len() == gv.1.len()
    &&& forall|j: int| 0 <= j < gv.1.len() ==> round_view(#[trigger] g.rounds@[j]) == trunc_round(gv.1[j])
}

proof fn lemma_holds_exact(games: Seq<Game>, gs: Seq<GameV>)
    requires
        games.len() == gs.len(),
        forall|i: int| 0 <= i < gs.len() ==> holds_game(#[trigger] games[i], gs[i]),
        counts_fit(gs),
    ensures
        games.map_values(|g: Game| game_view(g)) == gs,
{
    assert forall|i: int| 0 <= i < gs.len() implies game_view(#[trigger] games[i]) == gs[i] by {
        let g = games[i];
        assert(holds_game(g, gs[i]));
        let rv = g.rounds@.map_values(|r: Round| round_view(r));
        assert forall|j: int| 0 <= j < gs[i].1.len() implies #[trigger] rv[j] == gs[i].1[j] by {
            assert(round_view(g.rounds@[j]) == trunc_round(gs[i].1[j]));
            let c = gs[i].1[j];
            assert(c.0 <= u32::MAX && c.1 <= u32::MAX && c.2 <= u32::MAX);
        }
        assert(rv =~= gs[i].1);
    }
    assert(games.map_values(|g: Game| game_view(g)) =~= gs);
}

/// Reads a game record. Fails with `Syntax` exactly when the text does not follow the format.
pub fn input_gen(input: &str) -> (res: Result<Vec<Game>, ParseError>)
    requires
        spec_games(input.spec_bytes()) matches Some(gs) ==> counts_fit(gs),
    ensures
        match res {
            Ok(v) => spec_games(input.spec_bytes()) == Some(v@.map_values(|g: Game| game_view(g))),
            Err(e) => e == ParseError::Syntax && spec_games(input.spec_bytes()) is None,
        },
{
    let bytes = input.as_bytes();
    let toks = lex(bytes);
    let ghost t = toks@;
    assert(spec_games(input.spec_bytes()) == games_from(t, 0));
    let ghost total = games_from(t, 0);
    let mut games: Vec<Game> = Vec::new();
    let ghost mut done: Seq<GameV> = Seq::empty();
    let mut p: usize = 0;
    // While a game is open (`in_game`), `game` holds its finished rounds and
    // `rb`, `rg`, `rr` count the cubes of its current round.
    let mut in_game = false;
    let mut game = Game::new(0);
    let ghost mut cur_rounds: Seq<RoundV> = Seq::empty();
    let mut rb: u128 = 0;
    let mut rg: u128 = 0;
    let mut rr: u128 = 0;
    while p < toks.len() || in_game
        invariant
            t == toks@,
            t.len() <= usize::MAX,
            total == games_from(t, 0),
            total == spec_games(input.spec_bytes()),
            total matches Some(gs) ==> counts_fit(gs),
            p <= t.len(),
            games@.len() == done.len(),
            forall|i: int| 0 <= i < done.len() ==> holds_game(#[trigger] games@[i], done[i]),
            in_game ==> holds_game(game, (game.id, cur_rounds)),
            rb <= p * 0x1_0000_0000, rg <= p * 0x1_0000_0000, rr <= p * 0x1_0000_0000,
            in_game ==> total == prepend(done, rounds_from(t, p as int, game.id, cur_rounds, (rb as nat, rg as nat, rr as nat))),
            !in_game ==> total == prepend(done, games_from(t, p as int)),
        decreases t.len() - p, if in_game { 1int } else { 0int },
    {
        if !in_game {
            if toks[p] != Token::Game || p + 1 >= toks.len() {
                assert(games_from(t, p as int) is None);
                assert(total is None);
                return Err(ParseError::Syntax);
            }
            match toks[p + 1] {
                Token::Num(id) => {
                    game = Game::new(id);
                    proof { cur_rounds = Seq::empty(); }
                    rb = 0; rg = 0; rr = 0;
                    in_game = true;
                    p = p + 2;
                },
                _ => {
                    return Err(ParseError::Syntax);
                },
            }
        } else {
            if toks.len() - p < 2 {
                return Err(ParseError::Syntax);
            }
            let n = match toks[p] {
                Token::Num(n) => n,
                _ => {
                    return Err(ParseError::Syntax);
                },
            };
            let ghost r2 = add_cubes((rb as nat, rg as nat, rr as nat), t[p + 1], n).unwrap();
            match toks[p + 1] {
                Token::Blue => { rb = rb + n as u128; },
                Token::Green => { rg = rg + n as u128; },
                Token::Red => { rr = rr + n as u128; },
                _ => {
                    return Err(ParseError::Syntax);
                },
            }
            assert((rb as nat, rg as nat, rr as nat) == r2);
            let ghost gid = game.id;
            if p + 2 >= toks.len() {
                game.rounds.push(Round { blue: rb as u32, green: rg as u32, red: rr as u32 });
                games.push(game);
                proof {
                    let g = (gid, cur_rounds.push(r2));
                    done = done.push(g);
                    assert(total == Some(done));
                    lemma_holds_exact(games@, done);
                }
                return Ok(games);
            }
            match toks[p + 2] {
                Token::Comma => {
                    p = p + 3;
                },
                Token::Semicolon => {
                    game.rounds.push(Round { blue: rb as u32, green: rg as u32, red: rr as u32 });
                    proof { cur_rounds = cur_rounds.push(r2); }
                    rb = 0; rg = 0; rr = 0;
                    p = p + 3;
                },
                Token::Newline => {
                    game.rounds.push(Round { blue: rb as u32, green: rg as u32, red: rr as u32 });
                    let finished = game;
                    games.push(finished);
                    proof {
                        let g = (gid, cur_rounds.push(r2));
                        assert(holds_game(finished, g));
                        match games_from(t, p + 3) {
                            Some(r) => {
                                assert(done + (seq![g] + r) =~= done.push(g) + r);
                            },
                            None => {},
                        }
                        done = done.push(g);
                    }
                    game = Game::new(0);
                    in_game = false;
                    p = p + 3;
                },
                _ => {
                    return Err(ParseError::Syntax);
                },
            }
        }
    }
    assert(games_from(t, p as int) == Some(Seq::<GameV>::empty()));
    assert(done + Seq::<GameV>::empty() =~= done);
    proof { lemma_holds_exact(games@, done); }
    Ok(games)
}

/// Whether no round of `g` shows more than 12 red, 13 green or 14 blue cubes.
pub open spec fn possible(g: GameV) -> bool {
    forall|j: int| 0 <= j < g.1.len() ==> (#[trigger] g.1[j]).2 <= 12 && g.1[j].1 <= 13 && g.1[j].0 <= 14
}

/// The sum of the numbers of the possible games.
pub open spec fn sum_possible_ids(gs: Seq<GameV>) -> int
    decreases gs.len(),
{
    if gs.len() == 0 {
        0
    } else {
        sum_possible_ids(gs.drop_last()) + if possible(gs.last()) { gs.last().0 as int } else { 0 }
    }
}

pub open spec fn games_view(gs: Seq<Game>) -> Seq<GameV> {
    gs.map_values(|g: Game| game_view(g))
}

proof fn lemma_sum_ids_prefix(gs: Seq<GameV>, i: int)
    requires
        0 <= i <= gs.len(),
    ensures
        0 <= sum_possible_ids(gs.take(i)) <= sum_possible_ids(gs),
    decreases gs.len() - i,
{
    if i < gs.len() {
        lemma_sum_ids_prefix(gs, i + 1);
        assert(gs.take(i + 1).drop_last() =~= gs.take(i));
    } else {
        assert(gs.take(i) =~= gs);
    }
    lemma_sum_ids_nonneg(gs.take(i));
}

proof fn lemma_sum_ids_nonneg(gs: Seq<GameV>)
    ensures
        0 <= sum_possible_ids(gs),
    decreases gs.len(),
{
    if gs.len() > 0 {
        lemma_sum_ids_nonneg(gs.drop_last());
    }
}

fn game_possible(g: &Game) -> (res: bool)
    ensures
        res == possible(game_view(*g)),
        res <==> forall|k: int| 0 <= k < g.rounds@.len() ==>
            (#[trigger] g.rounds@[k]).red <= 12 && g.rounds@[k].green <= 13 && g.rounds@[k].blue <= 14,
{
    let mut j: usize = 0;
    while j < g.rounds.len()
        invariant
            j <= g.rounds@.len(),
            forall|k: int| 0 <= k < j ==> (#[trigger] game_view(*g).1[k]).2 <= 12
                && game_view(*g).1[k].1 <= 13 && game_view(*g).1[k].0 <= 14,
        decreases g.rounds@.len() - j,
    {
        let r = g.rounds[j];
        assert(game_view(*g).1[j as int] == round_view(r));
        if r.red > 12 || r.green > 13 || r.blue > 14 {
            proof {
                lemma_possible_game(*g);
            }
            return false;
        }
        j += 1;
    }
    proof {
        lemma_possible_game(*g);
    }
    true
}

/// A game is possible exactly when every round of it shows at most 12 red,
/// 13 green and 14 blue cubes.
pub proof fn lemma_possible_game(g: Game)
    ensures
        possible(game_view(g)) <==> forall|k: int| 0 <= k < g.rounds@.len() ==>
            (#[trigger] g.rounds@[k]).red <= 12 && g.rounds@[k].green <= 13 && g.rounds@[k].blue <= 14,
{
    let gv = game_view(g);
    assert forall|k: int| 0 <= k < g.rounds@.len() implies #[trigger] gv.1[k] == round_view(g.rounds@[k]) by {}
    if possible(gv) {
        assert forall|k: int| 0 <= k < g.rounds@.len() implies
            (#[trigger] g.rounds@[k]).red <= 12 && g.rounds@[k].green <= 13 && g.rounds@[k].blue <= 14 by {
            assert(gv.1[k] == round_view(g.rounds@[k]));
        }
    }
}

/// The first part counts a game's number exactly when the game is possible:
/// the sum grows by the game's number or not at all.
pub proof fn lemma_sum_possible_step(gs: Seq<Game>, i: int)
    requires
        0 <= i < gs.len(),
    ensures
        sum_possible_ids(games_view(gs.take(i + 1))) == sum_possible_ids(games_view(gs.take(i)))
            + if forall|k: int| 0 <= k < gs[i].rounds@.len() ==>
                (#[trigger] gs[i].rounds@[k]).red <= 12 && gs[i].rounds@[k].green <= 13 && gs[i].rounds@[k].blue <= 14
              { gs[i].id as int } else { 0 },
{
    lemma_possible_game(gs[i]);
    assert(games_view(gs.take(i + 1)).drop_last() =~= games_view(gs.take(i)));
    assert(games_view(gs.take(i + 1)).last() == game_view(gs[i]));
}

/// The sum of the numbers of the games that 12 red, 13 green and 14 blue cubes make possible.
pub fn part1(input: &[Game]) -> (res: u32)
    requires
        sum_possible_ids(games_view(input@)) <= u32::MAX,
    ensures
        res == sum_possible_ids(games_view(input@)),
{
    let ghost gs = games_view(input@);
    let mut acc: u32 = 0;
    let mut i: usize = 0;
    assert(gs.take(0) =~= Seq::<GameV>::empty());
    while i < input.len()
        invariant
            i <= input@.len(),
            gs == games_view(input@),
            sum_possible_ids(gs) <= u32::MAX,
            acc == sum_possible_ids(gs.take(i as int)),
        decreases input@.len() - i,
    {
        assert(gs.take(i + 1).drop_last() =~= gs.take(i as int));
        assert(gs[i as int] == game_view(input[i as int]));
        proof { lemma_sum_ids_prefix(gs, i + 1); }
        if game_possible(&input[i]) {
            acc = acc + input[i].id;
        }
        i += 1;
    }
    assert(gs.take(input@.len() as int) =~= gs);
    acc
}

/// The largest count of the colour `c` (0 blue, 1 green, 2 red) over the rounds `rs`.
pub open spec fn max_color(rs: Seq<RoundV>, c: int) -> nat
    decreases rs.len(),
{
    if rs.len() == 0 {
        0
    } else {
        let prev = max_color(rs.drop_last(), c);
        let here = if c == 0 { rs.last().0 } else if c == 1 { rs.last().1 } else { rs.last().2 };
        if here > prev { here } else { prev }
    }
}

/// The power of a game: the product of the fewest cubes of each colour that make it possible.
pub open spec fn power(g: GameV) -> int {
    (max_color(g.1, 0) * max_color(g.1, 1) * max_color(g.1, 2)) as int
}

/// The sum of the powers of the games.
pub open spec fn sum_powers(gs: Seq<GameV>) -> int
    decreases gs.len(),
{
    if gs.len() == 0 { 0 } else { sum_powers(gs.drop_last()) + power(gs.last()) }
}

proof fn lemma_power_nonneg(g: GameV)
    ensures
        power(g) >= 0,
        max_color(g.1, 1) * max_color(g.1, 0) >= 0,
{
    let a = max_color(g.1, 0);
    let b = max_color(g.1, 1);
    let c = max_color(g.1, 2);
    assert(a * b * c >= 0) by (nonlinear_arith);
    assert(b * a >= 0) by (nonlinear_arith);
}

proof fn lemma_sum_powers_prefix(gs: Seq<GameV>, i: int)
    requires
        0 <= i <= gs.len(),
    ensures
        0 <= sum_powers(gs.take(i)) <= sum_powers(gs),
    decreases gs.len() - i,
{
    if i < gs.len() {
        lemma_sum_powers_prefix(gs, i + 1);
        assert(gs.take(i + 1).drop_last() =~= gs.take(i));
        lemma_power_nonneg(gs[i]);
    } else {
        assert(gs.take(i) =~= gs);
    }
    lemma_sum_powers_nonneg(gs.take(i));
}

proof fn lemma_sum_powers_nonneg(gs: Seq<GameV>)
    ensures
        0 <= sum_powers(gs),
    decreases gs.len(),
{
    if gs.len() > 0 {
        lemma_sum_powers_nonneg(gs.drop_last());
        lemma_power_nonneg(gs.last());
    }
}

/// The count of colour `c` (0 blue, 1 green, 2 red) in the round `r`.
pub open spec fn color_count(r: Round, c: int) -> nat {
    if c == 0 { r.blue as nat } else if c == 1 { r.green as nat } else { r.red as nat }
}

proof fn lemma_max_color(rs: Seq<Round>, c: int)
    ensures
        forall|k: int| 0 <= k < rs.len() ==> #[trigger] color_count(rs[k], c)
            <= max_color(rs.map_values(|r: Round| round_view(r)), c),
        max_color(rs.map_values(|r: Round| round_view(r)), c) == 0 || exists|k: int| 0 <= k < rs.len()
            && #[trigger] color_count(rs[k], c) == max_color(rs.map_values(|r: Round| round_view(r)), c),
    decreases rs.len(),
{
    if rs.len() > 0 {
        let init = rs.drop_last();
        lemma_max_color(init, c);
        let vs = rs.map_values(|r: Round| round_view(r));
        assert(vs.drop_last() =~= init.map_values(|r: Round| round_view(r)));
        assert(vs.last() == round_view(rs.last()));
        let m = max_color(vs, c);
        assert forall|k: int| 0 <= k < rs.len() implies #[trigger] color_count(rs[k], c) <= m by {
            if k < rs.len() - 1 {
                assert(rs[k] == init[k]);
            }
        }
        if m != 0 && m != color_count(rs.last(), c) {
            let k = choose|k: int| 0 <= k < init.len()
                && #[trigger] color_count(init[k], c) == max_color(init.map_values(|r: Round| round_view(r)), c);
            assert(rs[k] == init[k]);
            assert(color_count(rs[k], c) == m);
        }
    }
}

/// The fewest cubes of each colour that make a game possible: each of the
/// three maxima is at least that colour's count in every round, and is the
/// count of some round (or 0).
pub proof fn lemma_game_maxima(g: Game)
    ensures
        forall|k: int| 0 <= k < g.rounds@.len() ==> (#[trigger] g.rounds@[k]).blue <= max_color(game_view(g).1, 0)
            && g.rounds@[k].green <= max_color(game_view(g).1, 1) && g.rounds@[k].red <= max_color(game_view(g).1, 2),
        max_color(game_view(g).1, 0) == 0 || exists|k: int| 0 <= k < g.rounds@.len()
            && (#[trigger] g.rounds@[k]).blue == max_color(game_view(g).1, 0),
        max_color(game_view(g).1, 1) == 0 || exists|k: int| 0 <= k < g.rounds@.len()
            && (#[trigger] g.rounds@[k]).green == max_color(game_view(g).1, 1),
        max_color(game_view(g).1, 2) == 0 || exists|k: int| 0 <= k < g.rounds@.len()
            && (#[trigger] g.rounds@[k]).red == max_color(game_view(g).1, 2),
{
    let rs = g.rounds@;
    lemma_max_color(rs, 0);
    lemma_max_color(rs, 1);
    lemma_max_color(rs, 2);
    assert forall|k: int| 0 <= k < rs.len() implies (#[trigger] rs[k]).blue <= max_color(game_view(g).1, 0)
        && rs[k].green <= max_color(game_view(g).1, 1) && rs[k].red <= max_color(game_view(g).1, 2) by {
        assert(color_count(rs[k], 0) == rs[k].blue);
        assert(color_count(rs[k], 1) == rs[k].green);
        assert(color_count(rs[k], 2) == rs[k].red);
    }
    if max_color(game_view(g).1, 0) != 0 {
        let k = choose|k: int| 0 <= k < rs.len()
            && #[trigger] color_count(rs[k], 0) == max_color(rs.map_values(|r: Round| round_view(r)), 0);
        assert(rs[k].blue == max_color(game_view(g).1, 0));
    }
    if max_color(game_view(g).1, 1) != 0 {
        let k = choose|k: int| 0 <= k < rs.len()
            && #[trigger] color_count(rs[k], 1) == max_color(rs.map_values(|r: Round| round_view(r)), 1);
        assert(rs[k].green == max_color(game_view(g).1, 1));
    }
    if max_color(game_view(g).1, 2) != 0 {
        let k = choose|k: int| 0 <= k < rs.len()
            && #[trigger] color_count(rs[k], 2) == max_color(rs.map_values(|r: Round| round_view(r)), 2);
        assert(rs[k].red == max_color(game_view(g).1, 2));
    }
}

fn game_maxima(g: &Game) -> (res: (u32, u32, u32))
    ensures
        res.0 == max_color(game_view(*g).1, 0),
        res.1 == max_color(game_view(*g).1, 1),
        res.2 == max_color(game_view(*g).1, 2),
{
    let ghost rs = game_view(*g).1;
    let mut mb: u32 = 0;
    let mut mg: u32 = 0;
    let mut mr: u32 = 0;
    let mut j: usize = 0;
    assert(rs.take(0) =~= Seq::<RoundV>::empty());
    while j < g.rounds.len()
        invariant
            j <= g.rounds@.len(),
            rs == game_view(*g).1,
            mb == max_color(rs.take(j as int), 0),
            mg == max_color(rs.take(j as int), 1),
            mr == max_color(rs.take(j as int), 2),
        decreases g.rounds@.len() - j,
    {
        let r = g.rounds[j];
        assert(rs[j as int] == round_view(r));
        assert(rs.take(j + 1).drop_last() =~= rs.take(j as int));
        if r.blue > mb { mb = r.blue; }
        if r.green > mg { mg = r.green; }
        if r.red > mr { mr = r.red; }
        j += 1;
    }
    assert(rs.take(g.rounds@.len() as int) =~= rs);
    (mb, mg, mr)
}

/// The sum of the powers of the games (see `power`).
pub fn part2(input: &[Game]) -> (res: u32)
    requires
        sum_powers(games_view(input@)) <= u32::MAX,
        forall|i: int| 0 <= i < input@.len() ==>
            max_color(#[trigger] games_view(input@)[i].1, 1) * max_color(games_view(input@)[i].1, 0) <= u32::MAX,
    ensures
        res == sum_powers(games_view(input@)),
{
    let ghost gs = games_view(input@);
    let mut acc: u32 = 0;
    let mut i: usize = 0;
    assert(gs.take(0) =~= Seq::<GameV>::empty());
    while i < input.len()
        invariant
            i <= input@.len(),
            gs == games_view(input@),
            sum_powers(gs) <= u32::MAX,
            forall|k: int| 0 <= k < input@.len() ==>
                max_color(#[trigger] gs[k].1, 1) * max_color(gs[k].1, 0) <= u32::MAX,
            acc == sum_powers(gs.take(i as int)),
        decreases input@.len() - i,
    {
        assert(gs.take(i + 1).drop_last() =~= gs.take(i as int));
        assert(gs[i as int] == game_view(input[i as int]));
        proof {
            lemma_sum_powers_prefix(gs, i + 1);
            lemma_power_nonneg(gs[i as int]);
        }
        let (mb, mg, mr) = game_maxima(&input[i]);
        assert(mg * mb <= u32::MAX);
        let gb = mg * mb;
        assert(gb * mr == power(gs[i as int])) by (nonlinear_arith)
            requires gb == mg * mb, power(gs[i as int]) == mb * mg * mr;
        acc = acc + gb * mr;
        i += 1;
    }
    assert(gs.take(input@.len() as int) =~= gs);
    acc
}

} // verus!
