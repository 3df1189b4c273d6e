//! Seed almanac: chains of range mappings from seeds to locations.
use vstd::prelude::*;
use vstd::string::StringSliceAdditionalSpecFns;
use std::ops::Range;
use crate::text;
use crate::text::{scan_u64, starts_with_at, same_bytes, ParseError};

verus! {

/// The tokens of the almanac.
#[derive(Debug, Clone, PartialEq, Eq)]
pub enum Token {
    Seeds,
    /// A map header `<from>-to-<to>`, as its two names.
    Header(Vec<u8>, Vec<u8>),
    Num(u64),
    Newline,
    DoubleNewline,
    Error,
}

/// A token as plain values.
pub enum TokenV {
    Seeds,
    Header(Seq<u8>, Seq<u8>),
    Num(u64),
    Newline,
    DoubleNewline,
    Error,
}

pub open spec fn token_view(t: Token) -> TokenV {
    match t {
        Token::Seeds => TokenV::Seeds,
        Token::Header(a, b) => TokenV::Header(a@, b@),
        Token::Num(n) => TokenV::Num(n),
        Token::Newline => TokenV::Newline,
        Token::DoubleNewline => TokenV::DoubleNewline,
        Token::Error => TokenV::Error,
    }
}

/// Whether `c` is in the character class `[A-z]`.
pub open spec fn is_letter(c: u8) -> bool {
    65u8 <= c <= 122u8
}

/// The length of the run of `[A-z]` characters of `s` that starts at `i`.
pub open spec fn letter_run(s: Seq<u8>, i: int) -> nat
    decreases s.len() - i,
{
    if 0 <= i < s.len() && is_letter(s[i]) { 1 + letter_run(s, i + 1) } else { 0 }
}

pub proof fn lemma_letter_run(s: Seq<u8>, i: int)
    requires
        0 <= i <= s.len(),
    ensures
        i + letter_run(s, i) <= s.len(),
        forall|k: int| i <= k < i + letter_run(s, i) ==> is_letter(#[trigger] s[k]),
        i + letter_run(s, i) < s.len() ==> !is_letter(s[i + letter_run(s, i)]),
    decreases s.len() - i,
{
    if i < s.len() && is_letter(s[i]) {
        lemma_letter_run(s, i + 1);
    }
}

pub open spec fn kw_seeds() -> Seq<u8> { seq![115u8, 101, 101, 100, 115] }
pub open spec fn kw_map() -> Seq<u8> { seq![109u8, 97, 112] }
pub open spec fn kw_to() -> Seq<u8> { seq![45u8, 116, 111, 45] }

/// The tokens of `s` from position `i` on. Spaces, colons and the word `map`
/// are skipped; the longest token wins; anything that is no token ends the
/// sequence with `Error`.
pub open spec fn lex_from(s: Seq<u8>, i: int) -> Seq<TokenV>
    decreases s.len() - i,
{
    if i < 0 || i >= s.len() {
        Seq::empty()
    } else {
        let r1 = letter_run(s, i);
        let r2 = letter_run(s, i + r1 + 4);
        if r1 > 0 && text::matches_at(s, i + r1, kw_to()) && r2 > 0 {
            proof { lemma_letter_run(s, i + r1 + 4); }
            seq![TokenV::Header(s.subrange(i, i + r1), s.subrange(i + r1 + 4, i + r1 + 4 + r2))]
                + lex_from(s, i + r1 + 4 + r2)
        } else if text::matches_at(s, i, kw_seeds()) {
            seq![TokenV::Seeds] + lex_from(s, i + 5)
        } else if text::matches_at(s, i, kw_map()) {
            lex_from(s, i + 3)
        } else if s[i] == 32u8 || s[i] == 58u8 {
            lex_from(s, i + 1)
        } else if text::is_digit(s[i]) {
            let r = 1 + text::digit_run(s, i + 1);
            proof { text::lemma_digit_run(s, i + 1); }
            let v = text::digits_value(s.subrange(i, i + r));
            if v <= u64::MAX {
                seq![TokenV::Num(v as u64)] + lex_from(s, i + r)
            } else {
                seq![TokenV::Error]
            }
        } else if s[i] == 10u8 && i + 1 < s.len() && s[i + 1] == 10u8 {
            seq![TokenV::DoubleNewline] + lex_from(s, i + 2)
        } else if s[i] == 10u8 {
            seq![TokenV::Newline] + lex_from(s, i + 1)
        } else {
            seq![TokenV::Error]
        }
    }
}

fn letters(s: &[u8], i: usize) -> (res: usize)
    requires
        i <= s.len(),
    ensures
        res == i + letter_run(s@, i as int),
        res <= s.len(),
{
    proof { lemma_letter_run(s@, i as int); }
    let mut j = i;
    while j < s.len() && 65u8 <= s[j] && s[j] <= 122u8
        invariant
            i <= j <= i + letter_run(s@, i as int),
            i + letter_run(s@, i as int) <= s.len(),
            forall|k: int| i <= k < i + letter_run(s@, i as int) ==> is_letter(#[trigger] s@[k]),
            i + letter_run(s@, i as int) < s.len() ==> !is_letter(s@[i + letter_run(s@, i as int)]),
        decreases s.len() - j,
    {
        j += 1;
    }
    j
}

fn copy_range(s: &[u8], a: usize, b: usize) -> (res: Vec<u8>)
    requires
        a <= b <= s.len(),
    ensures
        res@ == s@.subrange(a as int, b as int),
{
    let mut v: Vec<u8> = Vec::new();
    let mut k = a;
    while k < b
        invariant
            a <= k <= b,
            b <= s.len(),
            v@ == s@.subrange(a as int, k as int),
        decreases b - k,
    {
        v.push(s[k]);
        assert(v@ =~= s@.subrange(a as int, k + 1));
        k += 1;
    }
    v
}

pub open spec fn tokens_view(t: Seq<Token>) -> Seq<TokenV> {
    t.map_values(|x: Token| token_view(x))
}

/// Splits `s` into its tokens (see `lex_from`).
pub fn lex(s: &[u8]) -> (res: Vec<Token>)
    ensures
        tokens_view(res@) == lex_from(s@, 0),
{
    let mut out: Vec<Token> = Vec::new();
    let mut i: usize = 0;
    let seeds = vec![115u8, 101, 101, 100, 115];
    let map = vec![109u8, 97, 112];
    let to = vec![45u8, 116, 111, 45];
    assert(seeds@ =~= kw_seeds() && map@ =~= kw_map() && to@ =~= kw_to());
    while i < s.len()
        invariant
            i <= s.len(),
            tokens_view(out@) + lex_from(s@, i as int) == lex_from(s@, 0),
            seeds@ == kw_seeds(), map@ == kw_map(), to@ == kw_to(),
        decreases s.len() - i,
    {
        let ghost before = tokens_view(out@);
        let e1 = letters(s, i);
        let mut done = false;
        if e1 > i && starts_with_at(s, e1, to.as_slice()) {
            let e2 = letters(s, e1 + 4);
            if e2 > e1 + 4 {
                let a = copy_range(s, i, e1);
                let b = copy_range(s, e1 + 4, e2);
                out.push(Token::Header(a, b));
                assert(tokens_view(out@) =~= before.push(TokenV::Header(s@.subrange(i as int, e1 as int), s@.subrange(e1 + 4, e2 as int))));
                assert(tokens_view(out@) + lex_from(s@, e2 as int) =~= lex_from(s@, 0));
                i = e2;
                done = true;
            }
        }
        if !done {
            let c = s[i];
            if starts_with_at(s, i, seeds.as_slice()) {
                out.push(Token::Seeds);
                assert(tokens_view(out@) + lex_from(s@, i + 5) =~= lex_from(s@, 0));
                i += 5;
            } else if starts_with_at(s, i, map.as_slice()) {
                i += 3;
            } else if c == 32u8 || c == 58u8 {
                i += 1;
            } else if 48u8 <= c && c <= 57u8 {
                proof { text::lemma_digit_run(s@, i as int); }
                let (j, v) = scan_u64(s, i);
                match v {
                    Some(n) => {
                        out.push(Token::Num(n));
                        assert(tokens_view(out@) + lex_from(s@, j as int) =~= lex_from(s@, 0));
                        i = j;
                    },
                    None => {
                        out.push(Token::Error);
                        assert(tokens_view(out@) =~= lex_from(s@, 0));
                        return out;
                    },
                }
            } else if c == 10u8 && i + 1 < s.len() && s[i + 1] == 10u8 {
                out.push(Token::DoubleNewline);
                assert(tokens_view(out@) + lex_from(s@, i + 2) =~= lex_from(s@, 0));
                i += 2;
            } else if c == 10u8 {
                out.push(Token::Newline);
                assert(tokens_view(out@) + lex_from(s@, i + 1) =~= lex_from(s@, 0));
                i += 1;
            } else {
                out.push(Token::Error);
                assert(tokens_view(out@) =~= lex_from(s@, 0));
                return out;
            }
        }
    }
    assert(tokens_view(out@) =~= lex_from(s@, 0));
    out
}


/// One line of a map: the source range `from` is sent onto `to`, keeping
/// offsets.
#[derive(Debug)]
pub struct Mapping {
    pub from: Range<u64>,
    pub to: Range<u64>,
}

/// A map of the almanac: its source and destination category and its lines.
#[derive(Debug)]
pub struct Entry {
    pub orig: Vec<u8>,
    pub dest: Vec<u8>,
    pub mappings: Vec<Mapping>,
}

/// The almanac: the seeds, and the maps in the order in which they were
/// read. A category that heads two maps is served by the later one.
#[derive(Debug)]
pub struct Almanac {
    pub seeds: Vec<u64>,
    pub dir: Vec<Entry>,
}

/// The errors of the almanac's reader and solver.
#[derive(Debug, Clone, Copy, PartialEq, Eq, Structural)]
pub enum AlmanacError {
    /// The text does not follow the almanac's format.
    Syntax,
    /// A category on the way to `location` has no map.
    MissingKey,
}

/// The result of reading part of the token stream: what was read, a
/// rejection, or a line whose range end does not fit in a `u64`.
pub enum Outcome<T> {
    Parsed(T),
    Rejected,
    Overflows,
}

/// A map as plain values; each line is `(destination, source, length)`.
pub struct EntryV {
    pub orig: Seq<u8>,
    pub dest: Seq<u8>,
    pub lines: Seq<(u64, u64, u64)>,
}

pub struct AlmanacV {
    pub seeds: Seq<u64>,
    pub dir: Seq<EntryV>,
}

/// The token stream that the reader walks: the tokens of `s` and a closing
/// `DoubleNewline`.
pub open spec fn all_tokens(s: Seq<u8>) -> Seq<TokenV> {
    lex_from(s, 0).push(TokenV::DoubleNewline)
}

pub open spec fn num_at(t: Seq<TokenV>, p: int) -> Option<u64> {
    if 0 <= p < t.len() {
        match t[p] {
            TokenV::Num(n) => Some(n),
            _ => None,
        }
    } else {
        None
    }
}

pub open spec fn is_newline_at(t: Seq<TokenV>, p: int) -> bool {
    0 <= p < t.len() && t[p] is Newline
}

pub open spec fn is_double_at(t: Seq<TokenV>, p: int) -> bool {
    0 <= p < t.len() && t[p] is DoubleNewline
}

/// The seed numbers from position `p`, ended by a `DoubleNewline`, and the
/// position after it.
pub open spec fn seeds_from(t: Seq<TokenV>, p: int) -> Option<(Seq<u64>, int)>
    decreases t.len() - p,
{
    if p < 0 || p >= t.len() {
        None
    } else {
        match t[p] {
            TokenV::Num(n) => match seeds_from(t, p + 1) {
                Some((r, q)) => Some((seq![n] + r, q)),
                None => None,
            },
            TokenV::DoubleNewline => Some((Seq::empty(), p + 1)),
            _ => None,
        }
    }
}

/// The lines of a map from position `p`: three numbers each, then a
/// `Newline` (more lines follow) or a `DoubleNewline` (the map ends).
pub open spec fn lines_from(t: Seq<TokenV>, p: int) -> Outcome<(Seq<(u64, u64, u64)>, int)>
    decreases t.len() - p,
{
    match (num_at(t, p), num_at(t, p + 1), num_at(t, p + 2)) {
        (Some(d), Some(src), Some(len)) => {
            if src + len > u64::MAX || d + len > u64::MAX {
                Outcome::Overflows
            } else if is_newline_at(t, p + 3) {
                match lines_from(t, p + 4) {
                    Outcome::Parsed((r, q)) => Outcome::Parsed((seq![(d, src, len)] + r, q)),
                    Outcome::Rejected => Outcome::Rejected,
                    Outcome::Overflows => Outcome::Overflows,
                }
            } else if is_double_at(t, p + 3) {
                Outcome::Parsed((seq![(d, src, len)], p + 4))
            } else {
                Outcome::Rejected
            }
        },
        _ => Outcome::Rejected,
    }
}

pub proof fn lemma_lines_from(t: Seq<TokenV>, p: int)
    ensures
        lines_from(t, p) matches Outcome::Parsed((r, q)) ==> p + 4 <= q <= t.len() && r.len() > 0,
    decreases t.len() - p,
{
    if num_at(t, p) is Some && num_at(t, p + 1) is Some && num_at(t, p + 2) is Some
        && is_newline_at(t, p + 3) {
        lemma_lines_from(t, p + 4);
    }
}

/// The maps from position `p` to the end of the stream.
pub open spec fn maps_from(t: Seq<TokenV>, p: int) -> Outcome<Seq<EntryV>>
    decreases t.len() - p,
{
    if p < 0 || p >= t.len() {
        Outcome::Parsed(Seq::empty())
    } else {
        match t[p] {
            TokenV::Header(o, d) => {
                if is_newline_at(t, p + 1) {
                    match lines_from(t, p + 2) {
                        Outcome::Parsed((ls, q)) => {
                            if p < q <= t.len() {
                                match maps_from(t, q) {
                                    Outcome::Parsed(rest) => Outcome::Parsed(
                                        seq![EntryV { orig: o, dest: d, lines: ls }] + rest,
                                    ),
                                    Outcome::Rejected => Outcome::Rejected,
                                    Outcome::Overflows => Outcome::Overflows,
                                }
                            } else {
                                Outcome::Rejected
                            }
                        },
                        Outcome::Rejected => Outcome::Rejected,
                        Outcome::Overflows => Outcome::Overflows,
                    }
                } else {
                    Outcome::Rejected
                }
            },
            _ => Outcome::Rejected,
        }
    }
}

/// The almanac that the text `s` holds: `seeds`, the seed numbers, a blank
/// line, then the maps, each a header line and its lines, separated by blank
/// lines.
pub open spec fn spec_almanac(s: Seq<u8>) -> Outcome<AlmanacV> {
    let t = all_tokens(s);
    if t[0] is Seeds {
        match seeds_from(t, 1) {
            Some((sd, q)) => match maps_from(t, q) {
                Outcome::Parsed(dir) => Outcome::Parsed(AlmanacV { seeds: sd, dir }),
                Outcome::Rejected => Outcome::Rejected,
                Outcome::Overflows => Outcome::Overflows,
            },
            None => Outcome::Rejected,
        }
    } else {
        Outcome::Rejected
    }
}

/// `m` is the line `(d, src, len)`.
pub open spec fn mapping_is(m: Mapping, l: (u64, u64, u64)) -> bool {
    &&& m.from.start == l.1
    &&& m.from.end == l.1 + l.2
    &&& m.to.start == l.0
    &&& m.to.end == l.0 + l.2
}

pub open spec fn entry_is(e: Entry, v: EntryV) -> bool {
    &&& e.orig@ == v.orig
    &&& e.dest@ == v.dest
    &&& e.mappings@.len() == v.lines.len()
    &&& forall|j: int| 0 <= j < v.lines.len() ==> mapping_is(#[trigger] e.mappings@[j], v.lines[j])
}

pub open spec fn almanac_is(a: Almanac, v: AlmanacV) -> bool {
    &&& a.seeds@ == v.seeds
    &&& a.dir@.len() == v.dir.len()
    &&& forall|i: int| 0 <= i < v.dir.len() ==> entry_is(#[trigger] a.dir@[i], v.dir[i])
}

/// A line of a map sends a range onto a range of the same length.
pub open spec fn mapping_wf(m: Mapping) -> bool {
    m.from.start <= m.from.end && m.to.start <= m.to.end && m.to.end - m.to.start == m.from.end
        - m.from.start
}

impl Almanac {
    pub open spec fn wf(&self) -> bool {
        forall|i: int, j: int|
            0 <= i < self.dir@.len() && 0 <= j < self.dir@[i].mappings@.len() ==> mapping_wf(
                #[trigger] self.dir@[i].mappings@[j],
            )
    }
}

/// Reads one token stream position `p`, if it is a number.
fn take_num(t: &Vec<Token>, p: usize) -> (res: Option<u64>)
    ensures
        res == num_at(tokens_view(t@), p as int),
{
    if p < t.len() {
        match &t[p] {
            Token::Num(n) => Some(*n),
            _ => None,
        }
    } else {
        None
    }
}

fn copy_bytes(v: &Vec<u8>) -> (res: Vec<u8>)
    ensures
        res@ == v@,
{
    let mut out: Vec<u8> = Vec::new();
    let mut k: usize = 0;
    while k < v.len()
        invariant
            k <= v.len(),
            out@ == v@.subrange(0, k as int),
        decreases v.len() - k,
    {
        out.push(v[k]);
        assert(out@ =~= v@.subrange(0, k + 1));
        k += 1;
    }
    assert(out@ =~= v@);
    out
}

/// Reads the lines of a map from position `p`.
fn read_lines(t: &Vec<Token>, p: usize) -> (res: Result<(Vec<Mapping>, usize), bool>)
    requires
        p <= t@.len(),
        !(lines_from(tokens_view(t@), p as int) is Overflows),
    ensures
        match res {
            Ok((ms, q)) => lines_from(tokens_view(t@), p as int) matches Outcome::Parsed((ls, q2))
                && q2 == q && ms@.len() == ls.len() && forall|j: int|
                0 <= j < ls.len() ==> mapping_is(#[trigger] ms@[j], ls[j]),
            Err(_) => lines_from(tokens_view(t@), p as int) is Rejected,
        },
    decreases t@.len() - p,
{
    let ghost tv = tokens_view(t@);
    if t.len() - p < 4 {
        return Err(false);
    }
    let d = take_num(t, p);
    let src = take_num(t, p + 1);
    let len = take_num(t, p + 2);
    match (d, src, len) {
        (Some(d), Some(src), Some(len)) => {
            let m = Mapping { from: src..(src + len), to: d..(d + len) };
            let nl = p + 3 < t.len() && match &t[p + 3] { Token::Newline => true, _ => false };
            let dbl = p + 3 < t.len() && match &t[p + 3] { Token::DoubleNewline => true, _ => false };
            if nl {
                match read_lines(t, p + 4) {
                    Ok((rest, q)) => {
                        let mut out: Vec<Mapping> = Vec::new();
                        out.push(m);
                        let mut rest = rest;
                        let ghost r0 = rest@;
                        out.append(&mut rest);
                        proof {
                            let ls = match lines_from(tv, p + 4) { Outcome::Parsed((r, _)) => r, _ => Seq::empty() };
                            assert forall|j: int| 0 <= j < ls.len() + 1 implies mapping_is(
                                #[trigger] out@[j],
                                (seq![(d, src, len)] + ls)[j],
                            ) by {
                                if j > 0 {
                                    assert(out@[j] == r0[j - 1]);
                                }
                            }
                        }
                        Ok((out, q))
                    },
                    Err(_) => Err(false),
                }
            } else if dbl {
                let mut out: Vec<Mapping> = Vec::new();
                out.push(m);
                Ok((out, p + 4))
            } else {
                Err(false)
            }
        },
        _ => Err(false),
    }
}


/// Reads the maps from token position `p` to the end.
fn read_maps(t: &Vec<Token>, p: usize) -> (res: Result<Vec<Entry>, bool>)
    requires
        p <= t@.len(),
        !(maps_from(tokens_view(t@), p as int) is Overflows),
    ensures
        match res {
            Ok(es) => maps_from(tokens_view(t@), p as int) matches Outcome::Parsed(vs)
                && es@.len() == vs.len() && forall|i: int|
                0 <= i < vs.len() ==> entry_is(#[trigger] es@[i], vs[i]),
            Err(_) => maps_from(tokens_view(t@), p as int) is Rejected,
        },
    decreases t@.len() - p,
{
    let ghost tv = tokens_view(t@);
    if p >= t.len() {
        return Ok(Vec::new());
    }
    let (o, d) = match &t[p] {
        Token::Header(o, d) => (copy_bytes(o), copy_bytes(d)),
        _ => {
            return Err(false);
        },
    };
    let nl = p + 1 < t.len() && match &t[p + 1] { Token::Newline => true, _ => false };
    if !nl {
        return Err(false);
    }
    proof { lemma_lines_from(tv, p + 2); }
    match read_lines(t, p + 2) {
        Ok((ms, q)) => {
            match read_maps(t, q) {
                Ok(rest) => {
                    let mut out: Vec<Entry> = Vec::new();
                    out.push(Entry { orig: o, dest: d, mappings: ms });
                    let mut rest = rest;
                    let ghost r0 = rest@;
                    out.append(&mut rest);
                    proof {
                        let vs = match maps_from(tv, p as int) { Outcome::Parsed(v) => v, _ => Seq::empty() };
                        assert forall|i: int| 0 <= i < vs.len() implies entry_is(#[trigger] out@[i], vs[i]) by {
                            if i > 0 {
                                assert(out@[i] == r0[i - 1]);
                            }
                        }
                    }
                    Ok(out)
                },
                Err(_) => Err(false),
            }
        },
        Err(_) => Err(false),
    }
}

/// Reads an almanac (see `spec_almanac`).
pub fn input_gen(input: &str) -> (res: Result<Almanac, AlmanacError>)
    requires
        !(spec_almanac(input.spec_bytes()) is Overflows),
    ensures
        match res {
            Ok(a) => spec_almanac(input.spec_bytes()) matches Outcome::Parsed(v) && almanac_is(a, v)
                && a.wf(),
            Err(e) => e == AlmanacError::Syntax && spec_almanac(input.spec_bytes()) is Rejected,
        },
{
    let mut toks = lex(input.as_bytes());
    toks.push(Token::DoubleNewline);
    let ghost tv = tokens_view(toks@);
    assert(tv =~= all_tokens(input.spec_bytes()));
    match &toks[0] {
        Token::Seeds => {},
        _ => {
            return Err(AlmanacError::Syntax);
        },
    }
    let mut seeds: Vec<u64> = Vec::new();
    let mut p: usize = 1;
    let mut done = false;
    while !done
        invariant
            1 <= p <= toks@.len(),
            tv == tokens_view(toks@),
            tv == all_tokens(input.spec_bytes()),
            tv[0] is Seeds,
            done ==> seeds_from(tv, 1) == Some((seeds@, p as int)),
            !done ==> seeds_from(tv, 1) == (match seeds_from(tv, p as int) {
                Some((r, q)) => Some((seeds@ + r, q)),
                None => None,
            }),
        decreases toks@.len() - p + (if done { 0int } else { 1int }),
    {
        if p >= toks.len() {
            return Err(AlmanacError::Syntax);
        }
        match &toks[p] {
            Token::Num(n) => {
                let ghost before = seeds@;
                seeds.push(*n);
                proof {
                    match seeds_from(tv, p + 1) {
                        Some((r, q)) => {
                            assert(before + (seq![*n] + r) =~= seeds@ + r);
                        },
                        None => {},
                    }
                }
                p += 1;
            },
            Token::DoubleNewline => {
                assert(seeds@ + Seq::<u64>::empty() =~= seeds@);
                p += 1;
                done = true;
            },
            _ => {
                return Err(AlmanacError::Syntax);
            },
        }
    }
    match read_maps(&toks, p) {
        Ok(dir) => {
            let a = Almanac { seeds, dir };
            Ok(a)
        },
        Err(_) => Err(AlmanacError::Syntax),
    }
}


pub open spec fn kw_seed() -> Seq<u8> { seq![115u8, 101, 101, 100] }
pub open spec fn kw_location() -> Seq<u8> { seq![108u8, 111, 99, 97, 116, 105, 111, 110] }

/// The index of the map for category `key` among the first `n` maps: the
/// last one that it heads, or -1.
pub open spec fn lookup_in(dir: Seq<Entry>, key: Seq<u8>, n: int) -> int
    decreases n,
{
    if n <= 0 {
        -1
    } else if dir[n - 1].orig@ == key {
        n - 1
    } else {
        lookup_in(dir, key, n - 1)
    }
}

pub open spec fn lookup(dir: Seq<Entry>, key: Seq<u8>) -> int {
    lookup_in(dir, key, dir.len() as int)
}

pub proof fn lemma_lookup_in(dir: Seq<Entry>, key: Seq<u8>, n: int)
    requires
        0 <= n <= dir.len(),
    ensures
        -1 <= lookup_in(dir, key, n) < n,
        lookup_in(dir, key, n) >= 0 ==> dir[lookup_in(dir, key, n)].orig@ == key,
    decreases n,
{
    if n > 0 {
        lemma_lookup_in(dir, key, n - 1);
    }
}

/// Finds the map for category `key` (see `lookup`).
fn find_entry(dir: &Vec<Entry>, key: &[u8]) -> (res: Option<usize>)
    ensures
        match res {
            Some(i) => i == lookup(dir@, key@) && i < dir@.len(),
            None => lookup(dir@, key@) == -1,
        },
{
    let mut n = dir.len();
    while n > 0
        invariant
            n <= dir@.len(),
            lookup(dir@, key@) == lookup_in(dir@, key@, n as int),
        decreases n,
    {
        if same_bytes(dir[n - 1].orig.as_slice(), key) {
            return Some(n - 1);
        }
        n -= 1;
    }
    None
}

/// Whether the line `m` covers `v`.
pub open spec fn covers(m: Mapping, v: int) -> bool {
    m.from.start <= v < m.from.end
}

/// The first of the lines `ms[j..]` that covers `v`, or `ms.len()`.
pub open spec fn first_cover(ms: Seq<Mapping>, v: int, j: int) -> int
    decreases ms.len() - j,
{
    if j < 0 || j >= ms.len() {
        ms.len() as int
    } else if covers(ms[j], v) {
        j
    } else {
        first_cover(ms, v, j + 1)
    }
}

pub proof fn lemma_first_cover(ms: Seq<Mapping>, v: int, j: int)
    requires
        0 <= j <= ms.len(),
    ensures
        j <= first_cover(ms, v, j) <= ms.len(),
        first_cover(ms, v, j) < ms.len() ==> covers(ms[first_cover(ms, v, j)], v),
        forall|k: int| j <= k < first_cover(ms, v, j) ==> !covers(#[trigger] ms[k], v),
    decreases ms.len() - j,
{
    if j < ms.len() && !covers(ms[j], v) {
        lemma_first_cover(ms, v, j + 1);
    }
}

/// Where a map sends `v`: by the first line that covers it, else to itself.
pub open spec fn apply(ms: Seq<Mapping>, v: u64) -> int {
    let i = first_cover(ms, v as int, 0);
    if i < ms.len() {
        ms[i].to.start + (v - ms[i].from.start)
    } else {
        v as int
    }
}

/// A value that no line of a map covers is sent to itself; one that a line
/// covers first is sent to the same offset in that line's destination
/// range, which it lands in.
pub proof fn lemma_apply(ms: Seq<Mapping>, v: u64, i: int)
    ensures
        (forall|k: int| 0 <= k < ms.len() ==> !covers(#[trigger] ms[k], v as int)) ==> apply(ms, v) == v,
        0 <= i < ms.len() && covers(ms[i], v as int)
            && (forall|k: int| 0 <= k < i ==> !covers(#[trigger] ms[k], v as int))
            ==> apply(ms, v) == ms[i].to.start + (v - ms[i].from.start)
            && (mapping_wf(ms[i]) ==> ms[i].to.start <= apply(ms, v) < ms[i].to.end),
{
    lemma_first_cover(ms, v as int, 0);
    let f = first_cover(ms, v as int, 0);
    if f < ms.len() {
        assert(covers(ms[f], v as int));
    }
    if 0 <= i < ms.len() && covers(ms[i], v as int)
        && (forall|k: int| 0 <= k < i ==> !covers(#[trigger] ms[k], v as int)) {
        assert(f == i) by {
            if f < i {
                assert(!covers(ms[f], v as int));
            }
        }
    }
}

fn find_cover(ms: &[Mapping], v: u64) -> (res: usize)
    ensures
        res == first_cover(ms@, v as int, 0),
{
    let mut k: usize = 0;
    while k < ms.len()
        invariant
            k <= ms@.len(),
            first_cover(ms@, v as int, 0) == first_cover(ms@, v as int, k as int),
        decreases ms@.len() - k,
    {
        if ms[k].from.start <= v && v < ms[k].from.end {
            return k;
        }
        k += 1;
    }
    k
}

/// Sends `v` through a map.
fn apply_map(ms: &[Mapping], v: u64) -> (res: u64)
    requires
        forall|j: int| 0 <= j < ms@.len() ==> mapping_wf(#[trigger] ms@[j]),
    ensures
        res == apply(ms@, v),
{
    let i = find_cover(ms, v);
    proof { lemma_first_cover(ms@, v as int, 0); }
    if i < ms.len() {
        assert(mapping_wf(ms@[i as int]));
        ms[i].to.start + (v - ms[i].from.start)
    } else {
        v
    }
}

/// The walk from category `key` ends within `k` maps: at `location`, or at
/// a category that has no map.
pub open spec fn ends_within(dir: Seq<Entry>, key: Seq<u8>, k: nat) -> bool
    decreases k,
{
    key == kw_location() || lookup(dir, key) < 0 || (k > 0 && ends_within(
        dir,
        dir[lookup(dir, key)].dest@,
        (k - 1) as nat,
    ))
}

/// Where `v` of category `key` lands once it has gone through the maps up
/// to `location`; `None` where a category on the way has no map.
pub open spec fn locate(dir: Seq<Entry>, key: Seq<u8>, v: u64, k: nat) -> Option<u64>
    decreases k,
{
    if key == kw_location() {
        Some(v)
    } else if lookup(dir, key) < 0 || k == 0 {
        None
    } else {
        let e = dir[lookup(dir, key)];
        locate(dir, e.dest@, apply(e.mappings@, v) as u64, (k - 1) as nat)
    }
}

/// A number of steps within which the walk from `seed` ends.
pub open spec fn seed_fuel(dir: Seq<Entry>) -> nat {
    choose|k: nat| ends_within(dir, kw_seed(), k)
}

/// The lowest location of the first `n` seeds (`u64::MAX` for none).
pub open spec fn lowest_location(dir: Seq<Entry>, seeds: Seq<u64>, n: int) -> u64
    decreases n,
{
    if n <= 0 {
        u64::MAX
    } else {
        let rest = lowest_location(dir, seeds, n - 1);
        let here = locate(dir, kw_seed(), seeds[n - 1], seed_fuel(dir)).unwrap();
        if here < rest { here } else { rest }
    }
}

/// The lowest location that a seed reaches; `MissingKey` where the walk
/// from `seed` meets a category with no map.
pub fn part1(input: &Almanac) -> (res: Result<u64, AlmanacError>)
    requires
        input.wf(),
        exists|k: nat| ends_within(input.dir@, kw_seed(), k),
    ensures
        match res {
            Ok(x) => (forall|i: int| 0 <= i < input.seeds@.len() ==> (#[trigger] locate(
                input.dir@,
                kw_seed(),
                input.seeds@[i],
                seed_fuel(input.dir@),
            )) is Some) && x == lowest_location(input.dir@, input.seeds@, input.seeds@.len() as int),
            Err(e) => e == AlmanacError::MissingKey && exists|i: int| 0 <= i < input.seeds@.len() && (
            #[trigger] locate(input.dir@, kw_seed(), input.seeds@[i], seed_fuel(input.dir@))) is None,
        },
{
    let ghost dir = input.dir@;
    let ghost fuel = seed_fuel(dir);
    let seed_key: Vec<u8> = vec![115u8, 101, 101, 100];
    let location: Vec<u8> = vec![108u8, 111, 99, 97, 116, 105, 111, 110];
    assert(seed_key@ =~= kw_seed() && location@ =~= kw_location());
    let mut min_loc = u64::MAX;
    let mut si: usize = 0;
    while si < input.seeds.len()
        invariant
            si <= input.seeds@.len(),
            dir == input.dir@,
            fuel == seed_fuel(dir),
            ends_within(dir, kw_seed(), fuel),
            input.wf(),
            seed_key@ == kw_seed(),
            location@ == kw_location(),
            forall|i: int| 0 <= i < si ==> (#[trigger] locate(dir, kw_seed(), input.seeds@[i], fuel)) is Some,
            min_loc == lowest_location(dir, input.seeds@, si as int),
        decreases input.seeds@.len() - si,
    {
        let mut cur: &[u8] = seed_key.as_slice();
        let mut v = input.seeds[si];
        let ghost mut k: nat = fuel;
        while !same_bytes(cur, location.as_slice())
            invariant
                dir == input.dir@,
                input.wf(),
                si < input.seeds@.len(),
                fuel == seed_fuel(dir),
                location@ == kw_location(),
                ends_within(dir, cur@, k),
                locate(dir, kw_seed(), input.seeds@[si as int], fuel) == locate(dir, cur@, v, k),
            decreases k,
        {
            match find_entry(&input.dir, cur) {
                None => {
                    assert(locate(dir, kw_seed(), input.seeds@[si as int], fuel) is None);
                    return Err(AlmanacError::MissingKey);
                },
                Some(i) => {
                    let e = &input.dir[i];
                    proof {
                        assert forall|j: int| 0 <= j < e.mappings@.len() implies mapping_wf(
                            #[trigger] e.mappings@[j],
                        ) by {
                            assert(mapping_wf(input.dir@[i as int].mappings@[j]));
                        }
                    }
                    v = apply_map(e.mappings.as_slice(), v);
                    cur = e.dest.as_slice();
                    proof { k = (k - 1) as nat; }
                },
            }
        }
        let ghost here = locate(dir, kw_seed(), input.seeds@[si as int], fuel);
        assert(here == Some(v));
        if v < min_loc {
            min_loc = v;
        }
        si += 1;
    }
    Ok(min_loc)
}


/// The first of the lines `ms[j..]` whose source starts in `cur..end`, or
/// `ms.len()`.
pub open spec fn first_start_in(ms: Seq<Mapping>, cur: int, end: int, j: int) -> int
    decreases ms.len() - j,
{
    if j < 0 || j >= ms.len() {
        ms.len() as int
    } else if cur <= ms[j].from.start < end {
        j
    } else {
        first_start_in(ms, cur, end, j + 1)
    }
}

pub proof fn lemma_first_start_in(ms: Seq<Mapping>, cur: int, end: int, j: int)
    requires
        0 <= j <= ms.len(),
    ensures
        j <= first_start_in(ms, cur, end, j) <= ms.len(),
        first_start_in(ms, cur, end, j) < ms.len() ==> cur <= ms[first_start_in(ms, cur, end, j)].from.start < end,
    decreases ms.len() - j,
{
    if j < ms.len() && !(cur <= ms[j].from.start < end) {
        lemma_first_start_in(ms, cur, end, j + 1);
    }
}

fn find_start_in(ms: &[Mapping], cur: u64, end: u64) -> (res: usize)
    ensures
        res == first_start_in(ms@, cur as int, end as int, 0),
{
    let mut k: usize = 0;
    while k < ms.len()
        invariant
            k <= ms@.len(),
            first_start_in(ms@, cur as int, end as int, 0) == first_start_in(ms@, cur as int, end as int, k as int),
        decreases ms@.len() - k,
    {
        if cur <= ms[k].from.start && ms[k].from.start < end {
            return k;
        }
        k += 1;
    }
    k
}

/// Every line of the map covers at least one value.
pub open spec fn lines_nonempty(ms: Seq<Mapping>) -> bool {
    forall|j: int| 0 <= j < ms.len() ==> (#[trigger] ms[j]).from.start < ms[j].from.end
}

/// Every value that a line of the map sends somewhere fits in a `u64`: the
/// start of its target plus the length of its source.
pub open spec fn lines_fit(ms: Seq<Mapping>) -> bool {
    forall|j: int| 0 <= j < ms.len() ==> (#[trigger] ms[j]).to.start + (ms[j].from.end - ms[j].from.start) <= u64::MAX
}

/// The pieces into which the map `ms` cuts the part `cur..s.1` of the range
/// `s`. Where a line covers `cur`, the piece up to the end of that line (or
/// of `s`) is sent through it; else, where a line starts further on in `s`,
/// the piece up to that start is kept; else the whole of `s` is kept and the
/// cutting ends.
pub open spec fn map_from(ms: Seq<Mapping>, s: (int, int), cur: int) -> Seq<(int, int)>
    decreases s.1 - cur,
{
    if cur >= s.1 {
        Seq::empty()
    } else {
        let i = first_cover(ms, cur, 0);
        if 0 <= i < ms.len() {
            let m = ms[i];
            let mapped = m.to.start + (cur - m.from.start);
            let n = if s.1 - cur < m.from.end - cur { s.1 - cur } else { m.from.end - cur };
            if n > 0 {
                seq![(mapped, mapped + n)] + map_from(ms, s, cur + n)
            } else {
                Seq::empty()
            }
        } else {
            let j = first_start_in(ms, cur, s.1, 0);
            if 0 <= j < ms.len() {
                if cur < ms[j].from.start <= s.1 {
                    seq![(cur, ms[j].from.start as int)] + map_from(ms, s, ms[j].from.start as int)
                } else {
                    Seq::empty()
                }
            } else {
                seq![s]
            }
        }
    }
}

pub open spec fn ranges_view(v: Seq<Range<u64>>) -> Seq<(int, int)> {
    v.map_values(|r: Range<u64>| (r.start as int, r.end as int))
}

/// Cuts the range `s` by the map `mappings` (see `map_from`).
pub fn map_range(s: Range<u64>, mappings: &[Mapping]) -> (res: Vec<Range<u64>>)
    requires
        s.start <= s.end,
        lines_fit(mappings@),
        lines_nonempty(mappings@),
    ensures
        ranges_view(res@) == map_from(mappings@, (s.start as int, s.end as int), s.start as int),
        forall|i: int| 0 <= i < res@.len() ==> (#[trigger] res@[i]).start <= res@[i].end,
{
    let ghost ms = mappings@;
    let ghost sv = (s.start as int, s.end as int);
    let mut map: Vec<Range<u64>> = Vec::new();
    let mut cur = s.start;
    while cur != s.end
        invariant
            s.start <= cur <= s.end,
            ms == mappings@,
            sv == (s.start as int, s.end as int),
            lines_fit(ms),
            lines_nonempty(ms),
            ranges_view(map@) + map_from(ms, sv, cur as int) == map_from(ms, sv, s.start as int),
            forall|i: int| 0 <= i < map@.len() ==> (#[trigger] map@[i]).start <= map@[i].end,
        decreases s.end - cur,
    {
        let ghost before = map@;
        let i = find_cover(mappings, cur);
        proof { lemma_first_cover(ms, cur as int, 0); }
        if i < mappings.len() {
            let m = &mappings[i];
            assert(ms[i as int].to.start + (ms[i as int].from.end - ms[i as int].from.start) <= u64::MAX);
            let mapped = m.to.start + (cur - m.from.start);
            let n = if s.end - cur < m.from.end - cur { s.end - cur } else { m.from.end - cur };
            map.push(mapped..(mapped + n));
            assert(ranges_view(map@) =~= ranges_view(before) + seq![(mapped as int, mapped + n)]);
            cur += n;
        } else {
            let j = find_start_in(mappings, cur, s.end);
            proof { lemma_first_start_in(ms, cur as int, s.end as int, 0); }
            if j < mappings.len() {
                let start = mappings[j].from.start;
                assert(ms[j as int].from.start < ms[j as int].from.end);
                assert(!covers(ms[j as int], cur as int));
                map.push(cur..start);
                assert(ranges_view(map@) =~= ranges_view(before) + seq![(cur as int, start as int)]);
                cur = start;
            } else {
                map.push(s.start..s.end);
                assert(ranges_view(map@) =~= ranges_view(before) + seq![sv]);
                cur = s.end;
            }
        }
    }
    assert(ranges_view(map@) =~= ranges_view(map@) + map_from(ms, sv, cur as int));
    map
}


/// The seed ranges: the seed numbers read in pairs of start and length.
pub open spec fn seed_ranges(seeds: Seq<u64>) -> Seq<(int, int)> {
    Seq::new(seeds.len() / 2, |i: int| (seeds[2 * i] as int, seeds[2 * i] + seeds[2 * i + 1]))
}

/// The pieces into which the map `ms` cuts each of the ranges `rs`, in order.
pub open spec fn ranges_step(rs: Seq<(int, int)>, ms: Seq<Mapping>) -> Seq<(int, int)>
    decreases rs.len(),
{
    if rs.len() == 0 {
        Seq::empty()
    } else {
        ranges_step(rs.drop_last(), ms) + map_from(ms, rs.last(), rs.last().0)
    }
}

/// The ranges that `rs`, of category `key`, become once cut by each map up to
/// `location`; `None` where a category on the way has no map.
pub open spec fn ranges_at(dir: Seq<Entry>, key: Seq<u8>, rs: Seq<(int, int)>, k: nat) -> Option<
    Seq<(int, int)>,
>
    decreases k,
{
    if key == kw_location() {
        Some(rs)
    } else if lookup(dir, key) < 0 || k == 0 {
        None
    } else {
        let e = dir[lookup(dir, key)];
        ranges_at(dir, e.dest@, ranges_step(rs, e.mappings@), (k - 1) as nat)
    }
}

/// The lowest start among the first `n` ranges (`u64::MAX` for none).
pub open spec fn lowest_start(rs: Seq<(int, int)>, n: int) -> int
    decreases n,
{
    if n <= 0 {
        u64::MAX as int
    } else {
        let rest = lowest_start(rs, n - 1);
        if rs[n - 1].0 < rest { rs[n - 1].0 } else { rest }
    }
}

/// The lowest location of any seed in the seed ranges; `MissingKey` where the
/// walk from `seed` meets a category with no map.
pub fn part2(input: &Almanac) -> (res: Result<u64, AlmanacError>)
    requires
        input.wf(),
        forall|i: int| 0 <= i < input.dir@.len() ==> lines_nonempty(#[trigger] input.dir@[i].mappings@),
        input.seeds@.len() % 2 == 0,
        forall|i: int| 0 <= i < input.seeds@.len() / 2 ==> #[trigger] input.seeds@[2 * i] + input.seeds@[2 * i + 1] <= u64::MAX,
        exists|k: nat| ends_within(input.dir@, kw_seed(), k),
        (exists|i: int| 0 <= i < input.seeds@.len() / 2 && #[trigger] input.seeds@[2 * i + 1] > 0)
            || locate(input.dir@, kw_seed(), 0, seed_fuel(input.dir@)) is None,
    ensures
        match res {
            Ok(x) => ranges_at(input.dir@, kw_seed(), seed_ranges(input.seeds@), seed_fuel(input.dir@)) matches Some(rs)
                && x == lowest_start(rs, rs.len() as int),
            Err(e) => e == AlmanacError::MissingKey
                && ranges_at(input.dir@, kw_seed(), seed_ranges(input.seeds@), seed_fuel(input.dir@)) is None,
        },
{
    let ghost dir = input.dir@;
    let ghost fuel = seed_fuel(dir);
    let ghost seeds = input.seeds@;
    let seed_key: Vec<u8> = vec![115u8, 101, 101, 100];
    let location: Vec<u8> = vec![108u8, 111, 99, 97, 116, 105, 111, 110];
    assert(seed_key@ =~= kw_seed() && location@ =~= kw_location());
    let mut ranges: Vec<Range<u64>> = Vec::new();
    let mut i: usize = 0;
    while i < input.seeds.len()
        invariant
            seeds == input.seeds@,
            seeds.len() % 2 == 0,
            i % 2 == 0,
            i <= seeds.len(),
            forall|j: int| 0 <= j < seeds.len() / 2 ==> #[trigger] seeds[2 * j] + seeds[2 * j + 1] <= u64::MAX,
            ranges_view(ranges@) == seed_ranges(seeds).take((i / 2) as int),
            forall|j: int| 0 <= j < ranges@.len() ==> (#[trigger] ranges@[j]).start <= ranges@[j].end,
        decreases seeds.len() - i,
    {
        let ghost h = (i / 2) as int;
        assert(i == 2 * h && i + 1 < seeds.len() && h < seeds.len() / 2);
        assert(seeds[2 * h] + seeds[2 * h + 1] <= u64::MAX);
        let a = input.seeds[i];
        let b = input.seeds[i + 1];
        let ghost before = ranges@;
        ranges.push(a..(a + b));
        assert(ranges_view(ranges@) =~= ranges_view(before).push((a as int, a + b)));
        assert(seed_ranges(seeds)[h] == (a as int, a + b));
        assert(seed_ranges(seeds).take(h + 1) =~= seed_ranges(seeds).take(h).push(seed_ranges(seeds)[h]));
        i += 2;
    }
    assert(ranges_view(ranges@) =~= seed_ranges(seeds));
    let mut cur: &[u8] = seed_key.as_slice();
    let ghost mut k: nat = fuel;
    while !same_bytes(cur, location.as_slice())
        invariant
            dir == input.dir@,
            seeds == input.seeds@,
            fuel == seed_fuel(dir),
            input.wf(),
            forall|i: int| 0 <= i < dir.len() ==> lines_nonempty(#[trigger] dir[i].mappings@),
            location@ == kw_location(),
            ends_within(dir, cur@, k),
            ranges_at(dir, kw_seed(), seed_ranges(seeds), fuel) == ranges_at(dir, cur@, ranges_view(ranges@), k),
            forall|j: int| 0 <= j < ranges@.len() ==> (#[trigger] ranges@[j]).start <= ranges@[j].end,
        decreases k,
    {
        match find_entry(&input.dir, cur) {
            None => {
                return Err(AlmanacError::MissingKey);
            },
            Some(e) => {
                let ms = input.dir[e].mappings.as_slice();
                assert(lines_nonempty(ms@));
                assert forall|j: int| 0 <= j < ms@.len() implies (#[trigger] ms@[j]).to.start + (ms@[j].from.end - ms@[j].from.start) <= u64::MAX by {
                    assert(mapping_wf(input.dir@[e as int].mappings@[j]));
                }
                let ghost rv = ranges_view(ranges@);
                let mut next: Vec<Range<u64>> = Vec::new();
                let mut r: usize = 0;
                while r < ranges.len()
                    invariant
                        r <= ranges@.len(),
                        rv == ranges_view(ranges@),
                        lines_fit(ms@),
                        lines_nonempty(ms@),
                        forall|j: int| 0 <= j < ranges@.len() ==> (#[trigger] ranges@[j]).start <= ranges@[j].end,
                        ranges_view(next@) == ranges_step(rv.take(r as int), ms@),
                        forall|j: int| 0 <= j < next@.len() ==> (#[trigger] next@[j]).start <= next@[j].end,
                    decreases ranges@.len() - r,
                {
                    assert(ranges@[r as int].start <= ranges@[r as int].end);
                    let mut mapped = map_range(ranges[r].start..ranges[r].end, ms);
                    let ghost before = next@;
                    let ghost mv = mapped@;
                    next.append(&mut mapped);
                    assert(rv.take(r + 1).drop_last() =~= rv.take(r as int));
                    assert(ranges_view(next@) =~= ranges_view(before) + ranges_view(mv));
                    assert forall|j: int| 0 <= j < next@.len() implies (#[trigger] next@[j]).start <= next@[j].end by {
                        if j >= before.len() {
                            assert(next@[j] == mv[j - before.len()]);
                        }
                    }
                    r += 1;
                }
                assert(rv.take(ranges@.len() as int) =~= rv);
                ranges = next;
                cur = input.dir[e].dest.as_slice();
                proof { k = (k - 1) as nat; }
            },
        }
    }
    let mut best = u64::MAX;
    let mut r: usize = 0;
    let ghost rv = ranges_view(ranges@);
    while r < ranges.len()
        invariant
            r <= ranges@.len(),
            rv == ranges_view(ranges@),
            best == lowest_start(rv, r as int),
        decreases ranges@.len() - r,
    {
        if ranges[r].start < best {
            best = ranges[r].start;
        }
        r += 1;
    }
    Ok(best)
}

} // verus!
