//! Haunted wasteland: walking a network of named nodes by left/right turns.
use vstd::prelude::*;
use vstd::string::StringSliceAdditionalSpecFns;
use crate::text::same_bytes;

verus! {

/// The tokens of the network description.
#[derive(Debug, Clone, PartialEq, Eq)]
pub enum Token {
    Eq,
    LPar,
    RPar,
    Comma,
    /// A run of `[A-Z1-9]`.
    Name(Vec<u8>),
    Newline,
    DoubleNewline,
    Error,
}

/// A token as plain values.
pub enum TokenV {
    Eq,
    LPar,
    RPar,
    Comma,
    Name(Seq<u8>),
    Newline,
    DoubleNewline,
    Error,
}

pub open spec fn token_view(t: Token) -> TokenV {
    match t {
        Token::Eq => TokenV::Eq,
        Token::LPar => TokenV::LPar,
        Token::RPar => TokenV::RPar,
        Token::Comma => TokenV::Comma,
        Token::Name(v) => TokenV::Name(v@),
        Token::Newline => TokenV::Newline,
        Token::DoubleNewline => TokenV::DoubleNewline,
        Token::Error => TokenV::Error,
    }
}

pub open spec fn tokens_view(t: Seq<Token>) -> Seq<TokenV> {
    t.map_values(|x: Token| token_view(x))
}

pub open spec fn is_name_char(c: u8) -> bool {
    (65u8 <= c <= 90u8) || (49u8 <= c <= 57u8)
}

/// The length of the run of name characters of `s` that starts at `i`.
pub open spec fn name_run(s: Seq<u8>, i: int) -> nat
    decreases s.len() - i,
{
    if 0 <= i < s.len() && is_name_char(s[i]) { 1 + name_run(s, i + 1) } else { 0 }
}

pub proof fn lemma_name_run(s: Seq<u8>, i: int)
    requires
        0 <= i <= s.len(),
    ensures
        i + name_run(s, i) <= s.len(),
    decreases s.len() - i,
{
    if i < s.len() && is_name_char(s[i]) {
        lemma_name_run(s, i + 1);
    }
}

/// The tokens of `s` from position `i` on; spaces separate tokens, and
/// anything that is no token ends the sequence with `Error`.
pub open spec fn lex_from(s: Seq<u8>, i: int) -> Seq<TokenV>
    decreases s.len() - i,
{
    if i < 0 || i >= s.len() {
        Seq::empty()
    } else if s[i] == 32u8 {
        lex_from(s, i + 1)
    } else if s[i] == 61u8 {
        seq![TokenV::Eq] + lex_from(s, i + 1)
    } else if s[i] == 40u8 {
        seq![TokenV::LPar] + lex_from(s, i + 1)
    } else if s[i] == 41u8 {
        seq![TokenV::RPar] + lex_from(s, i + 1)
    } else if s[i] == 44u8 {
        seq![TokenV::Comma] + lex_from(s, i + 1)
    } else if is_name_char(s[i]) {
        let r = name_run(s, i);
        proof { lemma_name_run(s, i); }
        seq![TokenV::Name(s.subrange(i, i + r))] + lex_from(s, i + r)
    } else if s[i] == 10u8 && i + 1 < s.len() && s[i + 1] == 10u8 {
        seq![TokenV::DoubleNewline] + lex_from(s, i + 2)
    } else if s[i] == 10u8 {
        seq![TokenV::Newline] + lex_from(s, i + 1)
    } else {
        seq![TokenV::Error]
    }
}

fn name_end(s: &[u8], i: usize) -> (res: usize)
    requires
        i <= s.len(),
    ensures
        res == i + name_run(s@, i as int),
        res <= s.len(),
{
    proof { lemma_name_run(s@, i as int); }
    let mut j = i;
    while j < s.len() && ((65u8 <= s[j] && s[j] <= 90u8) || (49u8 <= s[j] && s[j] <= 57u8))
        invariant
            i <= j <= s.len(),
            name_run(s@, i as int) == (j - i) + name_run(s@, j as int),
        decreases s.len() - j,
    {
        j += 1;
    }
    j
}

fn copy_range(s: &[u8], a: usize, b: usize) -> (res: Vec<u8>)
    requires
        a <= b <= s.len(),
    ensures
        res@ == s@.subrange(a as int, b as int),
{
    let mut v: Vec<u8> = Vec::new();
    let mut k = a;
    while k < b
        invariant
            a <= k <= b,
            b <= s.len(),
            v@ == s@.subrange(a as int, k as int),
        decreases b - k,
    {
        v.push(s[k]);
        assert(v@ =~= s@.subrange(a as int, k + 1));
        k += 1;
    }
    v
}

/// Splits `s` into its tokens (see `lex_from`).
pub fn lex(s: &[u8]) -> (res: Vec<Token>)
    ensures
        tokens_view(res@) == lex_from(s@, 0),
{
    let mut out: Vec<Token> = Vec::new();
    let mut i: usize = 0;
    while i < s.len()
        invariant
            i <= s.len(),
            tokens_view(out@) + lex_from(s@, i as int) == lex_from(s@, 0),
        decreases s.len() - i,
    {
        let ghost before = tokens_view(out@);
        let c = s[i];
        if c == 32u8 {
            i += 1;
        } else if (65u8 <= c && c <= 90u8) || (49u8 <= c && c <= 57u8) {
            let j = name_end(s, i);
            let v = copy_range(s, i, j);
            out.push(Token::Name(v));
            assert(tokens_view(out@) =~= before.push(TokenV::Name(s@.subrange(i as int, j as int))));
            assert(tokens_view(out@) + lex_from(s@, j as int) =~= lex_from(s@, 0));
            i = j;
        } else {
            let t = if c == 61u8 {
                (Token::Eq, 1usize)
            } else if c == 40u8 {
                (Token::LPar, 1usize)
            } else if c == 41u8 {
                (Token::RPar, 1usize)
            } else if c == 44u8 {
                (Token::Comma, 1usize)
            } else if c == 10u8 && i + 1 < s.len() && s[i + 1] == 10u8 {
                (Token::DoubleNewline, 2usize)
            } else if c == 10u8 {
                (Token::Newline, 1usize)
            } else {
                (Token::Error, 0usize)
            };
            let ghost tv = token_view(t.0);
            out.push(t.0);
            assert(tokens_view(out@) =~= before.push(tv));
            if t.1 == 0 {
                assert(tokens_view(out@) =~= lex_from(s@, 0));
                return out;
            }
            assert(tokens_view(out@) + lex_from(s@, i + t.1) =~= lex_from(s@, 0));
            i = i + t.1;
        }
    }
    assert(tokens_view(out@) =~= lex_from(s@, 0));
    out
}

/// A turn of the instructions.
#[derive(Debug, Clone, Copy, PartialEq, Eq, Structural)]
pub enum Direction {
    Left,
    Right,
}

/// A node of the network and the nodes that its left and right turns lead
/// to.
#[derive(Debug)]
pub struct Node {
    pub name: Vec<u8>,
    pub left: Vec<u8>,
    pub right: Vec<u8>,
}

/// The network: its nodes in the order in which they were read (a name read
/// twice is served by its later line) and the instructions.
#[derive(Debug)]
pub struct Network {
    pub nodes: Vec<Node>,
    pub directions: Vec<Direction>,
}

/// The error that the network reader and walks report.
#[derive(Debug, Clone, Copy, PartialEq, Eq, Structural)]
pub enum NetworkError {
    /// The text does not follow the format.
    Syntax,
    /// A node on the way is not in the network.
    NoNextNode,
}

pub open spec fn dir_of(c: u8) -> Direction {
    if c == 76u8 { Direction::Left } else { Direction::Right }
}

pub open spec fn is_dir_char(c: u8) -> bool {
    c == 76u8 || c == 82u8
}

/// The instructions from token position `p`, up to and with the
/// `DoubleNewline` that ends them, and the position after it.
pub open spec fn dirs_from(t: Seq<TokenV>, p: int) -> Option<(Seq<Direction>, int)>
    decreases t.len() - p,
{
    if p < 0 || p >= t.len() {
        None
    } else {
        match t[p] {
            TokenV::DoubleNewline => Some((Seq::empty(), p + 1)),
            TokenV::Name(s) => if forall|k: int| 0 <= k < s.len() ==> is_dir_char(#[trigger] s[k]) {
                match dirs_from(t, p + 1) {
                    Some((r, q)) => Some((s.map_values(|c: u8| dir_of(c)) + r, q)),
                    None => None,
                }
            } else {
                None
            },
            _ => None,
        }
    }
}

pub open spec fn name_at(t: Seq<TokenV>, p: int) -> Option<Seq<u8>> {
    if 0 <= p < t.len() {
        match t[p] {
            TokenV::Name(s) => Some(s),
            _ => None,
        }
    } else {
        None
    }
}

/// A node line `F = (L, R)` ended by a newline at position `p`.
pub open spec fn line_at(t: Seq<TokenV>, p: int) -> Option<(Seq<u8>, Seq<u8>, Seq<u8>)> {
    if p + 8 <= t.len() && name_at(t, p) is Some && t[p + 1] is Eq && t[p + 2] is LPar && name_at(t, p + 3) is Some
        && t[p + 4] is Comma && name_at(t, p + 5) is Some && t[p + 6] is RPar && t[p + 7] is Newline {
        Some((name_at(t, p).unwrap(), name_at(t, p + 3).unwrap(), name_at(t, p + 5).unwrap()))
    } else {
        None
    }
}

/// The node lines from position `p`, up to the end of the stream or a
/// `DoubleNewline`.
pub open spec fn lines_from(t: Seq<TokenV>, p: int) -> Option<Seq<(Seq<u8>, Seq<u8>, Seq<u8>)>>
    decreases t.len() - p,
{
    if p < 0 || p >= t.len() || t[p] is DoubleNewline {
        Some(Seq::empty())
    } else {
        match line_at(t, p) {
            Some(l) => match lines_from(t, p + 8) {
                Some(r) => Some(seq![l] + r),
                None => None,
            },
            None => None,
        }
    }
}

/// The network that `s` holds: the instructions (runs of `L` and `R`), a
/// blank line, then one line `F = (L, R)` per node; reading stops at the
/// next blank line.
pub open spec fn spec_network(s: Seq<u8>) -> Option<(Seq<Direction>, Seq<(Seq<u8>, Seq<u8>, Seq<u8>)>)> {
    let t = lex_from(s, 0).push(TokenV::Newline);
    match dirs_from(t, 0) {
        Some((d, q)) => match lines_from(t, q) {
            Some(ls) => Some((d, ls)),
            None => None,
        },
        None => None,
    }
}

pub open spec fn node_is(n: Node, l: (Seq<u8>, Seq<u8>, Seq<u8>)) -> bool {
    n.name@ == l.0 && n.left@ == l.1 && n.right@ == l.2
}

fn copy_bytes(v: &Vec<u8>) -> (res: Vec<u8>)
    ensures
        res@ == v@,
{
    copy_range(v.as_slice(), 0, v.len())
}

fn name_of(t: &Vec<Token>, p: usize) -> (res: Option<Vec<u8>>)
    ensures
        match res {
            Some(v) => name_at(tokens_view(t@), p as int) == Some(v@),
            None => name_at(tokens_view(t@), p as int) is None,
        },
{
    if p < t.len() {
        match &t[p] {
            Token::Name(v) => Some(copy_bytes(v)),
            _ => None,
        }
    } else {
        None
    }
}

/// Reads a network (see `spec_network`).
#[verifier::loop_isolation(false)]
pub fn input_gen(input: &str) -> (res: Result<Network, NetworkError>)
    ensures
        match res {
            Ok(n) => spec_network(input.spec_bytes()) matches Some((d, ls)) && n.directions@ == d
                && n.nodes@.len() == ls.len() && forall|i: int| 0 <= i < ls.len() ==> node_is(#[trigger] n.nodes@[i], ls[i]),
            Err(e) => e == NetworkError::Syntax && spec_network(input.spec_bytes()) is None,
        },
{
    let mut toks = lex(input.as_bytes());
    toks.push(Token::Newline);
    let ghost t = tokens_view(toks@);
    assert(t =~= lex_from(input.spec_bytes(), 0).push(TokenV::Newline));
    let mut directions: Vec<Direction> = Vec::new();
    let mut p: usize = 0;
    let mut done = false;
    while !done
        invariant
            p <= toks@.len(),
            t == tokens_view(toks@),
            t == lex_from(input.spec_bytes(), 0).push(TokenV::Newline),
            done ==> dirs_from(t, 0) == Some((directions@, p as int)),
            !done ==> dirs_from(t, 0) == (match dirs_from(t, p as int) {
                Some((r, q)) => Some((directions@ + r, q)),
                None => None,
            }),
        decreases toks@.len() - p + (if done { 0int } else { 1int }),
    {
        if p >= toks.len() {
            return Err(NetworkError::Syntax);
        }
        match &toks[p] {
            Token::DoubleNewline => {
                assert(directions@ + Seq::<Direction>::empty() =~= directions@);
                p += 1;
                done = true;
            },
            Token::Name(s) => {
                let ghost before = directions@;
                let mut k: usize = 0;
                while k < s.len()
                    invariant
                        k <= s@.len(),
                        directions@ == before + s@.take(k as int).map_values(|c: u8| dir_of(c)),
                        forall|j: int| 0 <= j < k ==> is_dir_char(#[trigger] s@[j]),
                    decreases s@.len() - k,
                {
                    if s[k] == 76u8 {
                        directions.push(Direction::Left);
                    } else if s[k] == 82u8 {
                        directions.push(Direction::Right);
                    } else {
                        return Err(NetworkError::Syntax);
                    }
                    assert(s@.take(k + 1).map_values(|c: u8| dir_of(c)) =~= s@.take(k as int).map_values(|c: u8| dir_of(c)).push(dir_of(s@[k as int])));
                    k += 1;
                }
                assert(s@.take(k as int) =~= s@);
                proof {
                    match dirs_from(t, p + 1) {
                        Some((r, q)) => {
                            assert(before + (s@.map_values(|c: u8| dir_of(c)) + r) =~= directions@ + r);
                        },
                        None => {},
                    }
                }
                p += 1;
            },
            _ => {
                return Err(NetworkError::Syntax);
            },
        }
    }
    let mut nodes: Vec<Node> = Vec::new();
    let ghost start = p;
    loop
        invariant
            p <= toks@.len(),
            t == tokens_view(toks@),
            t == lex_from(input.spec_bytes(), 0).push(TokenV::Newline),
            dirs_from(t, 0) == Some((directions@, start as int)),
            lines_from(t, start as int) == (match lines_from(t, p as int) {
                Some(r) => Some(nodes@.map_values(|n: Node| (n.name@, n.left@, n.right@)) + r),
                None => None,
            }),
        decreases toks@.len() - p,
    {
        let ghost before = nodes@.map_values(|n: Node| (n.name@, n.left@, n.right@));
        if p >= toks.len() {
            break;
        }
        match &toks[p] {
            Token::DoubleNewline => {
                break;
            },
            _ => {},
        }
        if toks.len() - p < 8 {
            return Err(NetworkError::Syntax);
        }
        let f = name_of(&toks, p);
        let l = name_of(&toks, p + 3);
        let r = name_of(&toks, p + 5);
        let shape = match (&toks[p + 1], &toks[p + 2], &toks[p + 4], &toks[p + 6], &toks[p + 7]) {
            (Token::Eq, Token::LPar, Token::Comma, Token::RPar, Token::Newline) => true,
            _ => false,
        };
        match (f, l, r) {
            (Some(f), Some(l), Some(r)) if shape => {
                let ghost line = (f@, l@, r@);
                nodes.push(Node { name: f, left: l, right: r });
                proof {
                    assert(nodes@.map_values(|n: Node| (n.name@, n.left@, n.right@)) =~= before.push(line));
                    match lines_from(t, p + 8) {
                        Some(rest) => {
                            assert(before + (seq![line] + rest) =~= before.push(line) + rest);
                        },
                        None => {},
                    }
                }
                p += 8;
            },
            _ => {
                return Err(NetworkError::Syntax);
            },
        }
    }
    proof {
        let fin = nodes@.map_values(|n: Node| (n.name@, n.left@, n.right@));
        assert(fin + Seq::empty() =~= fin);
        assert forall|i: int| 0 <= i < nodes@.len() implies node_is(#[trigger] nodes@[i], fin[i]) by {}
    }
    Ok(Network { nodes, directions })
}


/// The index of the node called `key` among the first `n` nodes: the last
/// one so called, or -1.
pub open spec fn lookup_in(nodes: Seq<Node>, key: Seq<u8>, n: int) -> int
    decreases n,
{
    if n <= 0 {
        -1
    } else if nodes[n - 1].name@ == key {
        n - 1
    } else {
        lookup_in(nodes, key, n - 1)
    }
}

pub open spec fn lookup(nodes: Seq<Node>, key: Seq<u8>) -> int {
    lookup_in(nodes, key, nodes.len() as int)
}

pub proof fn lemma_lookup_in(nodes: Seq<Node>, key: Seq<u8>, n: int)
    requires
        0 <= n <= nodes.len(),
    ensures
        -1 <= lookup_in(nodes, key, n) < n,
        lookup_in(nodes, key, n) >= 0 ==> nodes[lookup_in(nodes, key, n)].name@ == key,
    decreases n,
{
    if n > 0 {
        lemma_lookup_in(nodes, key, n - 1);
    }
}

/// Finds the node called `key` (see `lookup`).
fn find_node(nodes: &Vec<Node>, key: &[u8]) -> (res: Option<usize>)
    ensures
        match res {
            Some(i) => i == lookup(nodes@, key@) && i < nodes@.len(),
            None => lookup(nodes@, key@) == -1,
        },
{
    let mut n = nodes.len();
    while n > 0
        invariant
            n <= nodes@.len(),
            lookup(nodes@, key@) == lookup_in(nodes@, key@, n as int),
        decreases n,
    {
        if same_bytes(nodes[n - 1].name.as_slice(), key) {
            return Some(n - 1);
        }
        n -= 1;
    }
    None
}

/// Where the `i`-th turn of the instructions leads from node number `idx`.
pub open spec fn turn(net: Network, idx: int, i: int) -> Seq<u8> {
    if net.directions@[i % net.directions@.len() as int] is Left {
        net.nodes@[idx].left@
    } else {
        net.nodes@[idx].right@
    }
}

pub open spec fn kw_aaa() -> Seq<u8> { seq![65u8, 65, 65] }
pub open spec fn kw_zzz() -> Seq<u8> { seq![90u8, 90, 90] }

/// The walk from node `cur`, whose next turn is the `i`-th, ends within `k`
/// further turns: at `ZZZ`, or at a node missing from the network.
pub open spec fn ends1(net: Network, cur: Seq<u8>, i: nat, k: nat) -> bool
    decreases k,
{
    let idx = lookup(net.nodes@, cur);
    idx < 0 || turn(net, idx, i as int) == kw_zzz() || (k > 0 && ends1(net, turn(net, idx, i as int), i + 1, (k - 1) as nat))
}

/// The number of turns taken once the walk from `cur` (next turn the
/// `i`-th) reaches `ZZZ`; `None` where it meets a node missing from the
/// network.
pub open spec fn walk1(net: Network, cur: Seq<u8>, i: nat, k: nat) -> Option<int>
    decreases k,
{
    let idx = lookup(net.nodes@, cur);
    if idx < 0 {
        None
    } else if turn(net, idx, i as int) == kw_zzz() {
        Some((i + 1) as int)
    } else if k == 0 {
        None
    } else {
        walk1(net, turn(net, idx, i as int), i + 1, (k - 1) as nat)
    }
}

/// Stepping a counter and its remainder together.
pub proof fn lemma_mod_next(i: int, j: int, len: int)
    requires
        len > 0,
        i >= 0,
        j == i % len,
    ensures
        (i + 1) % len == (if j + 1 == len { 0 } else { j + 1 }),
{
    vstd::arithmetic::div_mod::lemma_fundamental_div_mod(i, len);
    vstd::arithmetic::div_mod::lemma_mod_pos_bound(i, len);
    let q = i / len;
    assert(len * q == q * len) by (nonlinear_arith);
    if j + 1 < len {
        vstd::arithmetic::div_mod::lemma_fundamental_div_mod_converse_mod(i + 1, len, q, j + 1);
    } else {
        assert((q + 1) * len == q * len + len) by (nonlinear_arith);
        vstd::arithmetic::div_mod::lemma_fundamental_div_mod_converse_mod(i + 1, len, q + 1, 0);
    }
}

/// A number of turns within which the walk from `AAA` ends.
pub open spec fn fuel1(net: Network) -> nat {
    choose|k: nat| k < i64::MAX && ends1(net, kw_aaa(), 0, k)
}

/// The number of turns from `AAA` to `ZZZ`, the instructions repeated as
/// often as needed; `NoNextNode` where the walk meets a node that the
/// network lacks.
pub fn part1(input: &Network) -> (res: Result<i64, NetworkError>)
    requires
        input.directions@.len() > 0,
        exists|k: nat| k < i64::MAX && ends1(*input, kw_aaa(), 0, k),
    ensures
        match res {
            Ok(x) => walk1(*input, kw_aaa(), 0, fuel1(*input)) == Some(x as int),
            Err(e) => e == NetworkError::NoNextNode && walk1(*input, kw_aaa(), 0, fuel1(*input)) is None,
        },
{
    let ghost fuel = fuel1(*input);
    let aaa: Vec<u8> = vec![65u8, 65, 65];
    let zzz: Vec<u8> = vec![90u8, 90, 90];
    assert(aaa@ =~= kw_aaa() && zzz@ =~= kw_zzz());
    let len = input.directions.len();
    let mut cur: &[u8] = aaa.as_slice();
    let mut i: u64 = 0;
    let mut j: usize = 0;
    let ghost mut k: nat = fuel;
    loop
        invariant
            fuel == fuel1(*input),
            len == input.directions@.len(),
            len > 0,
            zzz@ == kw_zzz(),
            j == (i as int) % (len as int),
            i + k == fuel,
            fuel < i64::MAX,
            ends1(*input, cur@, i as nat, k),
            walk1(*input, kw_aaa(), 0, fuel) == walk1(*input, cur@, i as nat, k),
        decreases k,
    {
        match find_node(&input.nodes, cur) {
            None => {
                return Err(NetworkError::NoNextNode);
            },
            Some(idx) => {
                let node = &input.nodes[idx];
                let nxt: &[u8] = match input.directions[j] {
                    Direction::Left => node.left.as_slice(),
                    Direction::Right => node.right.as_slice(),
                };
                assert(nxt@ == turn(*input, idx as int, i as int));
                if same_bytes(nxt, zzz.as_slice()) {
                    return Ok((i + 1) as i64);
                }
                cur = nxt;
                proof { lemma_mod_next(i as int, j as int, len as int); }
                i += 1;
                j += 1;
                if j == len {
                    j = 0;
                }
                proof {
                    k = (k - 1) as nat;
                }
            },
        }
    }
}


/// Byte strings in the order of `str`'s `Ord`: lexicographic, a proper
/// prefix first.
pub open spec fn lex_lt(a: Seq<u8>, b: Seq<u8>) -> bool
    decreases a.len(),
{
    if a.len() == 0 {
        b.len() > 0
    } else if b.len() == 0 {
        false
    } else if a[0] != b[0] {
        a[0] < b[0]
    } else {
        lex_lt(a.drop_first(), b.drop_first())
    }
}

/// Two different byte strings are ordered one way or the other.
pub proof fn lemma_lex_total(a: Seq<u8>, b: Seq<u8>)
    ensures
        a != b ==> lex_lt(a, b) || lex_lt(b, a),
        !(lex_lt(a, b) && lex_lt(b, a)),
        !lex_lt(a, a),
    decreases a.len(),
{
    if a.len() > 0 && b.len() > 0 && a[0] == b[0] {
        lemma_lex_total(a.drop_first(), b.drop_first());
        if a != b {
            assert(a =~= seq![a[0]] + a.drop_first());
            assert(b =~= seq![b[0]] + b.drop_first());
        }
    }
    if a.len() > 0 {
        lemma_lex_total(a.drop_first(), a.drop_first());
    }
    if a.len() == 0 && b.len() == 0 {
        assert(a =~= b);
    }
}

/// Compares two byte strings (see `lex_lt`).
fn lex_less(a: &[u8], b: &[u8]) -> (res: bool)
    ensures
        res == lex_lt(a@, b@),
{
    let mut i: usize = 0;
    assert(a@.skip(0) =~= a@ && b@.skip(0) =~= b@);
    while i < a.len() && i < b.len() && a[i] == b[i]
        invariant
            i <= a@.len(),
            i <= b@.len(),
            lex_lt(a@, b@) == lex_lt(a@.skip(i as int), b@.skip(i as int)),
        decreases a@.len() - i,
    {
        assert(a@.skip(i as int).drop_first() =~= a@.skip(i + 1));
        assert(b@.skip(i as int).drop_first() =~= b@.skip(i + 1));
        i += 1;
    }
    if i == a.len() {
        i < b.len()
    } else if i == b.len() {
        false
    } else {
        a[i] < b[i]
    }
}

/// `x` put in its place in the sorted list `s`, unless it is there already.
pub open spec fn insert_sorted(s: Seq<Seq<u8>>, x: Seq<u8>) -> Seq<Seq<u8>>
    decreases s.len(),
{
    if s.len() == 0 {
        seq![x]
    } else if lex_lt(s[0], x) {
        seq![s[0]] + insert_sorted(s.drop_first(), x)
    } else if s[0] == x {
        s
    } else {
        seq![x] + s
    }
}

/// Whether a node name ends its prefix of two with `c`: `name[2..]` starts
/// with `c`.
pub open spec fn third_is(n: Seq<u8>, c: u8) -> bool {
    n.len() > 2 && n[2] == c
}

/// The names of the first `m` nodes whose third byte is `A`, sorted, each once.
pub open spec fn start_names(nodes: Seq<Node>, m: int) -> Seq<Seq<u8>>
    decreases m,
{
    if m <= 0 {
        Seq::empty()
    } else if third_is(nodes[m - 1].name@, 65u8) {
        insert_sorted(start_names(nodes, m - 1), nodes[m - 1].name@)
    } else {
        start_names(nodes, m - 1)
    }
}

pub open spec fn strictly_sorted(s: Seq<Seq<u8>>) -> bool {
    forall|i: int| 0 <= i < s.len() - 1 ==> lex_lt(#[trigger] s[i], s[i + 1])
}

proof fn lemma_single_contains(x: Seq<u8>, y: Seq<u8>)
    ensures
        seq![x].contains(y) <==> y == x,
{
    assert(seq![x][0] == x);
    if seq![x].contains(y) {
        let k = choose|k: int| 0 <= k < 1 && seq![x][k] == y;
        assert(k == 0);
    }
}

proof fn lemma_insert_sorted_elems(s: Seq<Seq<u8>>, x: Seq<u8>)
    ensures
        forall|y: Seq<u8>| insert_sorted(s, x).contains(y) <==> (s.contains(y) || y == x),
    decreases s.len(),
{
    if s.len() > 0 {
        let t = s.drop_first();
        assert(s =~= seq![s[0]] + t);
        if lex_lt(s[0], x) {
            lemma_insert_sorted_elems(t, x);
            let r = insert_sorted(t, x);
            assert forall|y: Seq<u8>| (seq![s[0]] + r).contains(y) <==> (s.contains(y) || y == x) by {
                vstd::seq_lib::lemma_seq_concat_contains_all_elements(seq![s[0]], r, y);
                vstd::seq_lib::lemma_seq_concat_contains_all_elements(seq![s[0]], t, y);
                lemma_single_contains(s[0], y);
            }
        } else if s[0] == x {
            assert(s[0] == x);
        } else {
            assert forall|y: Seq<u8>| (seq![x] + s).contains(y) <==> (s.contains(y) || y == x) by {
                vstd::seq_lib::lemma_seq_concat_contains_all_elements(seq![x], s, y);
                lemma_single_contains(x, y);
            }
        }
    } else {
        assert forall|y: Seq<u8>| seq![x].contains(y) <==> (s.contains(y) || y == x) by {
            lemma_single_contains(x, y);
        }
    }
}

proof fn lemma_insert_sorted(s: Seq<Seq<u8>>, x: Seq<u8>)
    requires
        strictly_sorted(s),
    ensures
        strictly_sorted(insert_sorted(s, x)),
        forall|y: Seq<u8>| insert_sorted(s, x).contains(y) <==> (s.contains(y) || y == x),
        insert_sorted(s, x).len() > 0 && (insert_sorted(s, x)[0] == x || (s.len() > 0 && insert_sorted(s, x)[0] == s[0])),
    decreases s.len(),
{
    lemma_insert_sorted_elems(s, x);
    if s.len() > 0 {
        lemma_lex_total(s[0], x);
        let t = s.drop_first();
        assert forall|i: int| 0 <= i < t.len() - 1 implies lex_lt(#[trigger] t[i], t[i + 1]) by {
            assert(t[i] == s[i + 1] && t[i + 1] == s[i + 2]);
        }
        if lex_lt(s[0], x) {
            lemma_insert_sorted(t, x);
            let r = insert_sorted(t, x);
            let q = seq![s[0]] + r;
            assert forall|i: int| 0 <= i < q.len() - 1 implies lex_lt(#[trigger] q[i], q[i + 1]) by {
                if i == 0 {
                    if r[0] != x {
                        assert(r[0] == t[0] && t[0] == s[1]);
                    }
                } else {
                    assert(q[i] == r[i - 1] && q[i + 1] == r[i]);
                }
            }
        } else if s[0] == x {
        } else {
            let q = seq![x] + s;
            assert forall|i: int| 0 <= i < q.len() - 1 implies lex_lt(#[trigger] q[i], q[i + 1]) by {
                if i > 0 {
                    assert(q[i] == s[i - 1] && q[i + 1] == s[i]);
                }
            }
        }
    }
}

/// The starting nodes are sorted, each once, and are the names of nodes
/// whose third byte is `A`.
pub proof fn lemma_start_names(nodes: Seq<Node>, m: int)
    requires
        0 <= m <= nodes.len(),
    ensures
        strictly_sorted(start_names(nodes, m)),
        forall|y: Seq<u8>| #[trigger] start_names(nodes, m).contains(y) <==> exists|i: int|
            0 <= i < m && nodes[i].name@ == y && third_is(y, 65u8),
    decreases m,
{
    if m > 0 {
        lemma_start_names(nodes, m - 1);
        if third_is(nodes[m - 1].name@, 65u8) {
            lemma_insert_sorted(start_names(nodes, m - 1), nodes[m - 1].name@);
        }
        assert forall|y: Seq<u8>| #[trigger] start_names(nodes, m).contains(y) <==> exists|i: int|
            0 <= i < m && nodes[i].name@ == y && third_is(y, 65u8) by {
            if start_names(nodes, m).contains(y) && y != nodes[m - 1].name@ {
                assert(start_names(nodes, m - 1).contains(y));
            }
            if exists|i: int| 0 <= i < m && nodes[i].name@ == y && third_is(y, 65u8) {
                let i = choose|i: int| 0 <= i < m && nodes[i].name@ == y && third_is(y, 65u8);
                if i < m - 1 {
                    assert(start_names(nodes, m - 1).contains(y));
                }
            }
        }
    }
}

/// Puts `x` in its place in the sorted list `v` (see `insert_sorted`).
fn insert_name(v: &mut Vec<Vec<u8>>, x: Vec<u8>)
    ensures
        final(v)@.map_values(|b: Vec<u8>| b@) == insert_sorted(old(v)@.map_values(|b: Vec<u8>| b@), x@),
{
    let ghost sv = v@.map_values(|b: Vec<u8>| b@);
    let mut p: usize = 0;
    assert(sv.skip(0) =~= sv && sv.take(0) + insert_sorted(sv, x@) =~= insert_sorted(sv, x@));
    while p < v.len() && lex_less(v[p].as_slice(), x.as_slice())
        invariant
            p <= v@.len(),
            sv == v@.map_values(|b: Vec<u8>| b@),
            insert_sorted(sv, x@) == sv.take(p as int) + insert_sorted(sv.skip(p as int), x@),
        decreases v@.len() - p,
    {
        assert(sv.skip(p as int).drop_first() =~= sv.skip(p + 1));
        assert(sv.take(p + 1) =~= sv.take(p as int) + seq![sv[p as int]]);
        p += 1;
    }
    if p < v.len() && same_bytes(v[p].as_slice(), x.as_slice()) {
        assert(sv.take(p as int) + sv.skip(p as int) =~= sv);
        return;
    }
    v.insert(p, x);
    assert(v@.map_values(|b: Vec<u8>| b@) =~= sv.take(p as int) + (seq![x@] + sv.skip(p as int)));
}

/// The greatest common divisor, by Euclid's recursion.
pub open spec fn gcd(a: nat, b: nat) -> nat
    decreases b,
{
    if b == 0 {
        a
    } else {
        gcd(b, a % b)
    }
}

/// The least common multiple of two numbers that are not negative, as
/// `num::integer::lcm` computes it: `a * (b / gcd(a, b))`, and 0 when both
/// are 0.
pub open spec fn lcm_spec(a: int, b: int) -> int {
    if a == 0 && b == 0 {
        0
    } else {
        a * (b / gcd(a as nat, b as nat) as int)
    }
}

pub proof fn lemma_gcd_pos(a: nat, b: nat)
    ensures
        (a > 0 || b > 0) ==> gcd(a, b) > 0,
    decreases b,
{
    if b > 0 {
        lemma_gcd_pos(b, a % b);
    }
}

pub proof fn lemma_lcm_nonneg(a: int, b: int)
    requires
        a >= 0,
        b >= 0,
    ensures
        lcm_spec(a, b) >= 0,
{
    if !(a == 0 && b == 0) {
        lemma_gcd_pos(a as nat, b as nat);
        let g = gcd(a as nat, b as nat) as int;
        assert(a * (b / g) >= 0) by (nonlinear_arith)
            requires
                a >= 0,
                b >= 0,
                g > 0;
    }
}

proof fn lemma_mod_zero(n: int, d: int, k: int)
    requires
        d > 0,
        n == d * k,
    ensures
        n % d == 0,
{
    vstd::arithmetic::div_mod::lemma_mod_multiples_basic(k, d);
    assert(k * d == d * k) by (nonlinear_arith);
}

proof fn lemma_mod_zero_quot(n: int, d: int)
    requires
        d > 0,
        n % d == 0,
    ensures
        n == d * (n / d),
{
    vstd::arithmetic::div_mod::lemma_fundamental_div_mod(n, d);
}

/// Divisibility is transitive: `a | b` and `b | c` give `a | c`.
pub proof fn lemma_mod_trans(a: int, b: int, c: int)
    requires
        a > 0,
        b > 0,
        b % a == 0,
        c % b == 0,
    ensures
        c % a == 0,
{
    lemma_mod_zero_quot(b, a);
    lemma_mod_zero_quot(c, b);
    let k1 = b / a;
    let k2 = c / b;
    assert(c == a * (k1 * k2)) by (nonlinear_arith)
        requires
            b == a * k1,
            c == b * k2,
    ;
    lemma_mod_zero(c, a, k1 * k2);
}

/// The greatest common divisor divides both numbers and is a sum of integer
/// multiples of them: `a = g r.0`, `b = g r.1`, `g = a r.2 + b r.3`.
proof fn lemma_gcd_bezout(a: nat, b: nat) -> (r: (int, int, int, int))
    ensures
        a == gcd(a, b) * r.0,
        b == gcd(a, b) * r.1,
        gcd(a, b) == a * r.2 + b * r.3,
    decreases b,
{
    if b == 0 {
        assert(a == a * 1 && 0 == a * 0 && a == a * 1 + 0 * 0) by (nonlinear_arith);
        (1, 0, 1, 0)
    } else {
        let r2 = lemma_gcd_bezout(b, a % b);
        let g = gcd(a, b) as int;
        let ai = a as int;
        let bi = b as int;
        let m = (a % b) as int;
        let q = ai / bi;
        vstd::arithmetic::div_mod::lemma_fundamental_div_mod(ai, bi);
        assert(m == ai % bi);
        assert(g == gcd(b, a % b));
        assert(ai == g * (r2.0 * q + r2.1)) by (nonlinear_arith)
            requires
                ai == bi * q + m,
                bi == g * r2.0,
                m == g * r2.1,
        ;
        assert(g == ai * r2.3 + bi * (r2.2 - q * r2.3)) by (nonlinear_arith)
            requires
                ai == bi * q + m,
                g == bi * r2.2 + m * r2.3,
        ;
        (r2.0 * q + r2.1, r2.0, r2.3, r2.2 - q * r2.3)
    }
}

/// The least common multiple of two positive numbers is positive and a
/// multiple of each of them.
pub proof fn lemma_lcm_multiple(a: int, b: int)
    requires
        a > 0,
        b > 0,
    ensures
        lcm_spec(a, b) > 0,
        lcm_spec(a, b) % a == 0,
        lcm_spec(a, b) % b == 0,
{
    lemma_gcd_pos(a as nat, b as nat);
    let g = gcd(a as nat, b as nat) as int;
    let r = lemma_gcd_bezout(a as nat, b as nat);
    vstd::arithmetic::div_mod::lemma_fundamental_div_mod_converse_div(b, g, r.1, 0);
    assert(b / g == r.1) by {
        assert(r.1 * g == g * r.1) by (nonlinear_arith);
    }
    let l = lcm_spec(a, b);
    assert(l == a * r.1);
    assert(r.1 > 0) by (nonlinear_arith)
        requires
            b == g * r.1,
            b > 0,
            g > 0,
    ;
    assert(l > 0) by (nonlinear_arith)
        requires
            l == a * r.1,
            a > 0,
            r.1 > 0,
    ;
    lemma_mod_zero(l, a, r.1);
    assert(l == b * r.0) by (nonlinear_arith)
        requires
            l == a * r.1,
            a == g * r.0,
            b == g * r.1,
    ;
    lemma_mod_zero(l, b, r.0);
}

/// The least common multiple of two positive numbers divides every common
/// multiple of them.
pub proof fn lemma_lcm_divides(a: int, b: int, c: int)
    requires
        a > 0,
        b > 0,
        c % a == 0,
        c % b == 0,
    ensures
        c % lcm_spec(a, b) == 0,
{
    lemma_gcd_pos(a as nat, b as nat);
    let g = gcd(a as nat, b as nat) as int;
    let r = lemma_gcd_bezout(a as nat, b as nat);
    vstd::arithmetic::div_mod::lemma_fundamental_div_mod_converse_div(b, g, r.1, 0);
    assert(b / g == r.1) by {
        assert(r.1 * g == g * r.1) by (nonlinear_arith);
    }
    let l = lcm_spec(a, b);
    assert(l == a * r.1);
    lemma_mod_zero_quot(c, a);
    lemma_mod_zero_quot(c, b);
    let s = c / a;
    let t = c / b;
    let k = t * r.2 + s * r.3;
    assert(c * g == c * a * r.2 + c * b * r.3) by (nonlinear_arith)
        requires
            g == a * r.2 + b * r.3,
    ;
    assert(c * a * r.2 == a * b * (t * r.2)) by (nonlinear_arith)
        requires
            c == b * t,
    ;
    assert(c * b * r.3 == a * b * (s * r.3)) by (nonlinear_arith)
        requires
            c == a * s,
    ;
    assert(a * b * (t * r.2) + a * b * (s * r.3) == a * b * k) by (nonlinear_arith)
        requires
            k == t * r.2 + s * r.3,
    ;
    assert(a * b == g * l) by (nonlinear_arith)
        requires
            b == g * r.1,
            l == a * r.1,
    ;
    assert(g * (c - l * k) == 0) by (nonlinear_arith)
        requires
            c * g == a * b * k,
            a * b == g * l,
    ;
    assert(c == l * k) by (nonlinear_arith)
        requires
            g * (c - l * k) == 0,
            g > 0,
    ;
    lemma_lcm_multiple(a, b);
    lemma_mod_zero(c, l, k);
}

/// `num::integer::lcm` on `i64`, for numbers that are not negative and whose
/// least common multiple fits: it returns `lcm_spec(a, b)`.
#[verifier::external_body]
pub(crate) fn lcm_i64(a: i64, b: i64) -> (r: i64)
    requires
        0 <= a,
        0 <= b,
        lcm_spec(a as int, b as int) <= i64::MAX,
    ensures
        r == lcm_spec(a as int, b as int),
{
    num::integer::lcm(a, b)
}

/// The walk of all cursors together. The cursors take the `i`-th turn one
/// after the other, from cursor `j`; each that lands on a node whose third
/// byte is `Z` records `i + 1` as its time and counts down `left`; the walk
/// ends when `left` reaches 0 (`Some` of the times), or at a node missing
/// from the network (`None`). Instructions without a turn end it at once.
pub open spec fn ghosts(
    net: Network,
    curs: Seq<Seq<u8>>,
    times: Seq<int>,
    left: int,
    i: nat,
    j: nat,
    k: nat,
) -> Option<Seq<int>>
    decreases k, curs.len() - j,
{
    if net.directions@.len() == 0 {
        Some(times)
    } else if j >= curs.len() {
        if k == 0 {
            None
        } else {
            ghosts(net, curs, times, left, i + 1, 0, (k - 1) as nat)
        }
    } else {
        let idx = lookup(net.nodes@, curs[j as int]);
        if idx < 0 {
            None
        } else {
            let nxt = turn(net, idx, i as int);
            let curs2 = curs.update(j as int, nxt);
            if third_is(nxt, 90u8) {
                let times2 = times.update(j as int, (i + 1) as int);
                if left - 1 == 0 {
                    Some(times2)
                } else {
                    ghosts(net, curs2, times2, left - 1, i, j + 1, k)
                }
            } else {
                ghosts(net, curs2, times, left, i, j + 1, k)
            }
        }
    }
}

/// The walk of all cursors ends within `k` more rounds of turns.
pub open spec fn ghosts_end(net: Network, curs: Seq<Seq<u8>>, left: int, i: nat, j: nat, k: nat) -> bool
    decreases k, curs.len() - j,
{
    if net.directions@.len() == 0 {
        true
    } else if j >= curs.len() {
        k > 0 && ghosts_end(net, curs, left, i + 1, 0, (k - 1) as nat)
    } else {
        let idx = lookup(net.nodes@, curs[j as int]);
        if idx < 0 {
            true
        } else {
            let nxt = turn(net, idx, i as int);
            let curs2 = curs.update(j as int, nxt);
            if third_is(nxt, 90u8) {
                left - 1 == 0 || ghosts_end(net, curs2, left - 1, i, j + 1, k)
            } else {
                ghosts_end(net, curs2, left, i, j + 1, k)
            }
        }
    }
}

/// The least common multiple of the first `m` times, from 1.
pub open spec fn lcm_fold(ts: Seq<int>, m: int) -> int
    decreases m,
{
    if m <= 0 {
        1
    } else {
        lcm_spec(ts[m - 1], lcm_fold(ts, m - 1))
    }
}

/// `c` is a multiple of each of the first `m` numbers.
pub open spec fn common_multiple(ps: Seq<int>, m: int, c: int) -> bool {
    forall|i: int| 0 <= i < m ==> c % #[trigger] ps[i] == 0
}

/// Of positive times, the folded least common multiple is their least
/// common multiple: it is positive, a multiple of each of them, and it
/// divides every other multiple of them all (of none, it is 1).
pub proof fn lemma_lcm_fold_least(ts: Seq<int>, m: int)
    requires
        0 <= m <= ts.len(),
        forall|i: int| 0 <= i < m ==> #[trigger] ts[i] > 0,
    ensures
        lcm_fold(ts, m) > 0,
        common_multiple(ts, m, lcm_fold(ts, m)),
        forall|c: int| #[trigger] common_multiple(ts, m, c) ==> c % lcm_fold(ts, m) == 0,
        m == 0 ==> lcm_fold(ts, m) == 1,
    decreases m,
{
    if m > 0 {
        lemma_lcm_fold_least(ts, m - 1);
        let lp = lcm_fold(ts, m - 1);
        let p = ts[m - 1];
        let l = lcm_fold(ts, m);
        assert(p > 0);
        lemma_lcm_multiple(p, lp);
        assert forall|i: int| 0 <= i < m implies l % #[trigger] ts[i] == 0 by {
            if i < m - 1 {
                assert(lp % ts[i] == 0);
                lemma_mod_trans(ts[i], lp, l);
            }
        }
        assert forall|c: int| #[trigger] common_multiple(ts, m, c) implies c % l == 0 by {
            assert forall|i: int| 0 <= i < m - 1 implies c % #[trigger] ts[i] == 0 by {}
            assert(common_multiple(ts, m - 1, c));
            assert(c % p == 0);
            lemma_lcm_divides(p, lp, c);
        }
    }
}

/// Every step of `lcm_fold` fits in an `i64`.
pub open spec fn lcm_fits(ts: Seq<int>) -> bool {
    forall|m: int| 1 <= m <= ts.len() ==> #[trigger] lcm_fold(ts, m) <= i64::MAX
}

pub open spec fn start_curs(net: Network) -> Seq<Seq<u8>> {
    start_names(net.nodes@, net.nodes@.len() as int)
}

pub open spec fn zeros(n: int) -> Seq<int> {
    Seq::new(n as nat, |i: int| 0int)
}

/// A number of rounds of turns within which the walk of all cursors ends.
pub open spec fn fuel2(net: Network) -> nat {
    choose|k: nat| k < i64::MAX && ghosts_end(net, start_curs(net), start_curs(net).len() as int, 0, 0, k)
}

/// Names are at least two bytes long, so that `name[2..]` exists.
pub open spec fn names_wf(net: Network) -> bool {
    forall|i: int| 0 <= i < net.nodes@.len() ==> (#[trigger] net.nodes@[i]).name@.len() >= 2
        && net.nodes@[i].left@.len() >= 2 && net.nodes@[i].right@.len() >= 2
}

/// Walks from every node whose third byte is `A` at once, one cursor each
/// taken in sorted order, until as many landings on nodes whose third byte
/// is `Z` have been seen as there are cursors; then the least common
/// multiple of each cursor's latest landing time.
pub fn part2(input: &Network) -> (res: Result<i64, NetworkError>)
    requires
        names_wf(*input),
        exists|k: nat| k < i64::MAX && ghosts_end(*input, start_curs(*input), start_curs(*input).len() as int, 0, 0, k),
        ghosts(*input, start_curs(*input), zeros(start_curs(*input).len() as int), start_curs(*input).len() as int, 0, 0, fuel2(*input)) matches Some(ts) ==> lcm_fits(ts),
    ensures
        match res {
            Ok(x) => ghosts(*input, start_curs(*input), zeros(start_curs(*input).len() as int), start_curs(*input).len() as int, 0, 0, fuel2(*input)) matches Some(ts)
                && x == lcm_fold(ts, ts.len() as int),
            Err(e) => e == NetworkError::NoNextNode
                && ghosts(*input, start_curs(*input), zeros(start_curs(*input).len() as int), start_curs(*input).len() as int, 0, 0, fuel2(*input)) is None,
        },
{
    let ghost net = *input;
    let ghost fuel = fuel2(net);
    let mut curs: Vec<Vec<u8>> = Vec::new();
    let mut m: usize = 0;
    while m < input.nodes.len()
        invariant
            m <= input.nodes@.len(),
            curs@.map_values(|b: Vec<u8>| b@) == start_names(input.nodes@, m as int),
        decreases input.nodes@.len() - m,
    {
        let name = &input.nodes[m].name;
        if name.len() > 2 && name[2] == 65u8 {
            insert_name(&mut curs, copy_bytes(name));
        }
        m += 1;
    }
    let ghost c0 = curs@.map_values(|b: Vec<u8>| b@);
    assert(c0 == start_curs(net));
    let n = curs.len();
    let mut times: Vec<i64> = Vec::new();
    while times.len() < n
        invariant
            times@.len() <= n,
            forall|t: int| 0 <= t < times@.len() ==> times@[t] == 0,
        decreases n - times@.len(),
    {
        times.push(0);
    }
    assert(times@.map_values(|t: i64| t as int) =~= zeros(n as int));
    let len = input.directions.len();
    let mut full: usize = n;
    let mut i: u64 = 0;
    let mut d: usize = 0;
    let ghost mut k: nat = fuel;
    let mut done = len == 0;
    while !done
        invariant
            net == *input,
            c0 == start_curs(net),
            c0.len() == n,
            fuel == fuel2(net),
            len == net.directions@.len(),
            n == curs@.len(),
            n == times@.len(),
            names_wf(net),
            !done ==> len > 0,
            !done ==> d == (i as int) % (len as int),
            i + k == fuel,
            fuel < i64::MAX,
            forall|t: int| 0 <= t < n ==> 0 <= #[trigger] times@[t] <= i + 1,
            !done && n > 0 ==> full >= 1,
            !done ==> ghosts_end(net, curs@.map_values(|b: Vec<u8>| b@), full as int, i as nat, 0, k),
            !done ==> ghosts(net, c0, zeros(n as int), n as int, 0, 0, fuel) == ghosts(
                net,
                curs@.map_values(|b: Vec<u8>| b@),
                times@.map_values(|t: i64| t as int),
                full as int,
                i as nat,
                0,
                k,
            ),
            done ==> ghosts(net, c0, zeros(n as int), n as int, 0, 0, fuel) == Some(times@.map_values(|t: i64| t as int)),
        decreases k, (if done { 0int } else { 1int }),
    {
        let mut c: usize = 0;
        while c < n && !done
            invariant
                net == *input,
                c0 == start_curs(net),
                c0.len() == n,
                fuel == fuel2(net),
                len == net.directions@.len(),
                len > 0,
                n == curs@.len(),
                n == times@.len(),
                c <= n,
                names_wf(net),
                d == (i as int) % (len as int),
                i + k == fuel,
                fuel < i64::MAX,
                forall|t: int| 0 <= t < n ==> 0 <= #[trigger] times@[t] <= i + 1,
                !done && n > 0 ==> full >= 1,
                !done ==> ghosts_end(net, curs@.map_values(|b: Vec<u8>| b@), full as int, i as nat, c as nat, k),
                !done ==> ghosts(net, c0, zeros(n as int), n as int, 0, 0, fuel) == ghosts(
                    net,
                    curs@.map_values(|b: Vec<u8>| b@),
                    times@.map_values(|t: i64| t as int),
                    full as int,
                    i as nat,
                    c as nat,
                    k,
                ),
                done ==> ghosts(net, c0, zeros(n as int), n as int, 0, 0, fuel) == Some(times@.map_values(|t: i64| t as int)),
            decreases n - c,
        {
            let ghost cv = curs@.map_values(|b: Vec<u8>| b@);
            let ghost tv = times@.map_values(|t: i64| t as int);
            match find_node(&input.nodes, curs[c].as_slice()) {
                None => {
                    assert(cv[c as int] == curs@[c as int]@);
                    assert(ghosts(net, cv, tv, full as int, i as nat, c as nat, k) is None);
                    return Err(NetworkError::NoNextNode);
                },
                Some(idx) => {
                    assert(cv[c as int] == curs@[c as int]@);
                    let node = &input.nodes[idx];
                    let nxt = match input.directions[d] {
                        Direction::Left => copy_bytes(&node.left),
                        Direction::Right => copy_bytes(&node.right),
                    };
                    assert(nxt@ == turn(net, idx as int, i as int));
                    assert(names_wf(net) && nxt@.len() >= 2) by {
                        assert(net.nodes@[idx as int] == *node);
                    }
                    let hit = nxt.len() > 2 && nxt[2] == 90u8;
                    let ghost nv = nxt@;
                    curs.set(c, nxt);
                    assert(curs@.map_values(|b: Vec<u8>| b@) =~= cv.update(c as int, nv));
                    if hit {
                        times.set(c, (i + 1) as i64);
                        assert(times@.map_values(|t: i64| t as int) =~= tv.update(c as int, i + 1));
                        full -= 1;
                        if full == 0 {
                            done = true;
                        }
                    }
                },
            }
            c += 1;
        }
        if !done {
            proof { lemma_mod_next(i as int, d as int, len as int); }
            i += 1;
            d += 1;
            if d == len {
                d = 0;
            }
            proof { k = (k - 1) as nat; }
        }
    }
    let ghost ts = times@.map_values(|t: i64| t as int);
    let mut res: i64 = 1;
    let mut t: usize = 0;
    while t < n
        invariant
            t <= n,
            n == times@.len(),
            ts == times@.map_values(|t: i64| t as int),
            forall|q: int| 0 <= q < n ==> 0 <= #[trigger] times@[q],
            lcm_fits(ts),
            res == lcm_fold(ts, t as int),
            res >= 0,
        decreases n - t,
    {
        assert(lcm_fold(ts, t + 1) <= i64::MAX);
        proof { lemma_lcm_nonneg(times@[t as int] as int, res as int); }
        res = lcm_i64(times[t], res);
        t += 1;
    }
    Ok(res)
}

} // verus!
