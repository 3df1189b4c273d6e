//! Aplenty: parts sorted by workflows of rating conditions.
use vstd::prelude::*;
use crate::text;
use crate::text::{scan_u64, same_bytes, ParseError};

verus! {

/// A comparison of a condition.
#[derive(Debug, Clone, Copy, PartialEq, Eq, Structural)]
pub enum Op {
    Lt,
    Gt,
}

/// A rating category: `x`, `m`, `a` or `s`.
#[derive(Debug, Clone, Copy, PartialEq, Eq, Structural)]
pub enum Category {
    X,
    M,
    A,
    S,
}

/// A part and its four ratings, in the order `x`, `m`, `a`, `s`.
#[derive(Debug, Clone, Copy, PartialEq, Eq)]
pub struct Part {
    pub scores: [u64; 4],
}

/// Where a workflow sends a part: accepted, rejected, or on to a workflow.
#[derive(Debug, Clone, PartialEq, Eq)]
pub enum Dest {
    A,
    R,
    Forward(Vec<u8>),
}

/// A rule of a workflow: where parts whose rating in `categ` compares with
/// `thresh` by `op` go.
#[derive(Debug, Clone, PartialEq, Eq)]
pub struct Condition {
    pub categ: Category,
    pub op: Op,
    pub thresh: u64,
    pub dest: Dest,
}

#[derive(Debug, Clone, PartialEq, Eq)]
pub struct Workflow {
    pub name: Vec<u8>,
    pub conditions: Vec<Condition>,
    pub default: Dest,
}

#[derive(Debug, Clone, PartialEq, Eq)]
pub struct System {
    pub workflows: Vec<Workflow>,
    pub parts: Vec<Part>,
}

pub enum DestV {
    A,
    R,
    Forward(Seq<u8>),
}

pub struct CondV {
    pub categ: Category,
    pub op: Op,
    pub thresh: u64,
    pub dest: DestV,
}

pub struct WorkflowV {
    pub name: Seq<u8>,
    pub conditions: Seq<CondV>,
    pub default: DestV,
}

pub open spec fn dest_view(d: Dest) -> DestV {
    match d {
        Dest::A => DestV::A,
        Dest::R => DestV::R,
        Dest::Forward(v) => DestV::Forward(v@),
    }
}

pub open spec fn cond_view(c: Condition) -> CondV {
    CondV { categ: c.categ, op: c.op, thresh: c.thresh, dest: dest_view(c.dest) }
}

pub open spec fn workflow_view(w: Workflow) -> WorkflowV {
    WorkflowV {
        name: w.name@,
        conditions: w.conditions@.map_values(|c: Condition| cond_view(c)),
        default: dest_view(w.default),
    }
}

pub open spec fn workflows_view(ws: Seq<Workflow>) -> Seq<WorkflowV> {
    ws.map_values(|w: Workflow| workflow_view(w))
}

pub open spec fn parts_view(ps: Seq<Part>) -> Seq<Seq<u64>> {
    ps.map_values(|p: Part| p.scores@)
}

pub open spec fn byte_is(s: Seq<u8>, i: int, c: u8) -> bool {
    0 <= i < s.len() && s[i] == c
}

pub open spec fn is_lower(c: u8) -> bool {
    97u8 <= c <= 122u8
}

/// The length of the run of `[a-z]` of `s` that starts at `i`.
pub open spec fn lower_run(s: Seq<u8>, i: int) -> nat
    decreases s.len() - i,
{
    if 0 <= i < s.len() && is_lower(s[i]) { 1 + lower_run(s, i + 1) } else { 0 }
}

pub proof fn lemma_lower_run(s: Seq<u8>, i: int)
    requires
        0 <= i <= s.len(),
    ensures
        i + lower_run(s, i) <= s.len(),
    decreases s.len() - i,
{
    if i < s.len() && is_lower(s[i]) {
        lemma_lower_run(s, i + 1);
    }
}

/// A number at `i`: `0`, or a nonzero digit and more digits; its value must
/// fit in a `u64`.
pub open spec fn p_dec(s: Seq<u8>, i: int) -> Option<(u64, int)> {
    if byte_is(s, i, 48u8) {
        Some((0u64, i + 1))
    } else if 0 <= i < s.len() && 49u8 <= s[i] <= 57u8 {
        let r = 1 + text::digit_run(s, i + 1);
        let v = text::digits_value(s.subrange(i, i + r));
        if v <= u64::MAX { Some((v as u64, i + r)) } else { None }
    } else {
        None
    }
}

/// A destination at `i`: `A`, `R`, or a workflow name of `[a-z]+`.
pub open spec fn p_dest(s: Seq<u8>, i: int) -> Option<(DestV, int)> {
    if byte_is(s, i, 65u8) {
        Some((DestV::A, i + 1))
    } else if byte_is(s, i, 82u8) {
        Some((DestV::R, i + 1))
    } else if 0 <= i && lower_run(s, i) > 0 {
        Some((DestV::Forward(s.subrange(i, i + lower_run(s, i))), i + lower_run(s, i)))
    } else {
        None
    }
}

pub open spec fn categ_of(c: u8) -> Option<Category> {
    if c == 120u8 {
        Some(Category::X)
    } else if c == 109u8 {
        Some(Category::M)
    } else if c == 97u8 {
        Some(Category::A)
    } else if c == 115u8 {
        Some(Category::S)
    } else {
        None
    }
}

pub open spec fn op_of(c: u8) -> Option<Op> {
    if c == 62u8 { Some(Op::Gt) } else if c == 60u8 { Some(Op::Lt) } else { None }
}

/// A condition at `i`: category, `<` or `>`, number, `:`, destination.
pub open spec fn p_cond(s: Seq<u8>, i: int) -> Option<(CondV, int)> {
    if 0 <= i && i + 1 < s.len() && categ_of(s[i]) is Some && op_of(s[i + 1]) is Some {
        match p_dec(s, i + 2) {
            Some((n, j)) => if byte_is(s, j, 58u8) {
                match p_dest(s, j + 1) {
                    Some((d, k)) => Some((CondV { categ: categ_of(s[i]).unwrap(), op: op_of(s[i + 1]).unwrap(), thresh: n, dest: d }, k)),
                    None => None,
                }
            } else {
                None
            },
            None => None,
        }
    } else {
        None
    }
}

pub proof fn lemma_p_dec(s: Seq<u8>, i: int)
    ensures
        p_dec(s, i) matches Some((v, j)) ==> i < j <= s.len(),
{
    if 0 <= i < s.len() && 49u8 <= s[i] <= 57u8 {
        text::lemma_digit_run(s, i + 1);
    }
}

pub proof fn lemma_p_dest(s: Seq<u8>, i: int)
    ensures
        p_dest(s, i) matches Some((d, j)) ==> i < j <= s.len(),
{
    if 0 <= i <= s.len() {
        lemma_lower_run(s, i);
    }
}

pub proof fn lemma_p_cond(s: Seq<u8>, i: int)
    ensures
        p_cond(s, i) matches Some((c, j)) ==> i < j <= s.len(),
{
    lemma_p_dec(s, i + 2);
    if let Some((n, j)) = p_dec(s, i + 2) {
        lemma_p_dest(s, j + 1);
    }
}

/// The conditions, each followed by `,`, from `i` on, and where they end.
pub open spec fn p_conds(s: Seq<u8>, i: int) -> (Seq<CondV>, int)
    decreases s.len() - i,
{
    if i < 0 || i > s.len() {
        (Seq::empty(), i)
    } else {
        match p_cond(s, i) {
            Some((c, j)) => if byte_is(s, j, 44u8) && i < j {
                let r = p_conds(s, j + 1);
                (seq![c] + r.0, r.1)
            } else {
                (Seq::empty(), i)
            },
            None => (Seq::empty(), i),
        }
    }
}

/// A line end at `i`: a newline, or the end of the input.
pub open spec fn p_eol(s: Seq<u8>, i: int) -> Option<int> {
    if byte_is(s, i, 10u8) {
        Some(i + 1)
    } else if i == s.len() {
        Some(i)
    } else {
        None
    }
}

/// A workflow at `i`: `name{cond,cond,...,default}` and a line end.
pub open spec fn p_workflow(s: Seq<u8>, i: int) -> Option<(WorkflowV, int)> {
    let r = lower_run(s, i);
    if 0 <= i && r > 0 && byte_is(s, i + r, 123u8) {
        let (cs, j) = p_conds(s, i + r + 1);
        match p_dest(s, j) {
            Some((d, k)) => if byte_is(s, k, 125u8) {
                match p_eol(s, k + 1) {
                    Some(e) => Some((WorkflowV { name: s.subrange(i, i + r), conditions: cs, default: d }, e)),
                    None => None,
                }
            } else {
                None
            },
            None => None,
        }
    } else {
        None
    }
}

/// Workflows, as many as can be read from `i` on, and where they end.
pub open spec fn p_workflows(s: Seq<u8>, i: int) -> (Seq<WorkflowV>, int)
    decreases s.len() - i,
{
    match p_workflow(s, i) {
        Some((w, j)) => if i < j <= s.len() {
            let r = p_workflows(s, j);
            (seq![w] + r.0, r.1)
        } else {
            (Seq::empty(), i)
        },
        None => (Seq::empty(), i),
    }
}

pub open spec fn p_rating(s: Seq<u8>, i: int, c: u8) -> Option<(u64, int)> {
    if byte_is(s, i, c) && byte_is(s, i + 1, 61u8) { p_dec(s, i + 2) } else { None }
}

/// A part at `i`: `{x=..,m=..,a=..,s=..}` and a line end.
pub open spec fn p_part(s: Seq<u8>, i: int) -> Option<(Seq<u64>, int)> {
    if byte_is(s, i, 123u8) {
        match p_rating(s, i + 1, 120u8) {
            Some((x, j1)) => if byte_is(s, j1, 44u8) {
                match p_rating(s, j1 + 1, 109u8) {
                    Some((m, j2)) => if byte_is(s, j2, 44u8) {
                        match p_rating(s, j2 + 1, 97u8) {
                            Some((a, j3)) => if byte_is(s, j3, 44u8) {
                                match p_rating(s, j3 + 1, 115u8) {
                                    Some((ss, j4)) => if byte_is(s, j4, 125u8) {
                                        match p_eol(s, j4 + 1) {
                                            Some(e) => Some((seq![x, m, a, ss], e)),
                                            None => None,
                                        }
                                    } else {
                                        None
                                    },
                                    None => None,
                                }
                            } else {
                                None
                            },
                            None => None,
                        }
                    } else {
                        None
                    },
                    None => None,
                }
            } else {
                None
            },
            None => None,
        }
    } else {
        None
    }
}

/// Parts, as many as can be read from `i` on, and where they end.
pub open spec fn p_parts(s: Seq<u8>, i: int) -> (Seq<Seq<u64>>, int)
    decreases s.len() - i,
{
    match p_part(s, i) {
        Some((p, j)) => if i < j <= s.len() {
            let r = p_parts(s, j);
            (seq![p] + r.0, r.1)
        } else {
            (Seq::empty(), i)
        },
        None => (Seq::empty(), i),
    }
}

/// The system that `s` holds: one or more workflows, a blank line, one or
/// more parts, and nothing else.
pub open spec fn spec_system(s: Seq<u8>) -> Option<(Seq<WorkflowV>, Seq<Seq<u64>>)> {
    let (ws, i) = p_workflows(s, 0);
    let (ps, j) = p_parts(s, i + 1);
    if ws.len() >= 1 && byte_is(s, i, 10u8) && ps.len() >= 1 && j == s.len() {
        Some((ws, ps))
    } else {
        None
    }
}

fn at(s: &[u8], i: usize, c: u8) -> (res: bool)
    ensures
        res == byte_is(s@, i as int, c),
{
    i < s.len() && s[i] == c
}

/// The end of the run of `[a-z]` of `s` that starts at `i`.
pub fn lower_end(s: &[u8], i: usize) -> (res: usize)
    requires
        i <= s.len(),
    ensures
        res == i + lower_run(s@, i as int),
        res <= s.len(),
{
    proof { lemma_lower_run(s@, i as int); }
    let mut j = i;
    while j < s.len() && 97u8 <= s[j] && s[j] <= 122u8
        invariant
            i <= j <= s.len(),
            lower_run(s@, i as int) == (j - i) + lower_run(s@, j as int),
        decreases s.len() - j,
    {
        j += 1;
    }
    j
}

/// The bytes of `s` from `a` to `b`.
pub fn copy_range(s: &[u8], a: usize, b: usize) -> (res: Vec<u8>)
    requires
        a <= b <= s.len(),
    ensures
        res@ == s@.subrange(a as int, b as int),
{
    let mut v: Vec<u8> = Vec::new();
    let mut k = a;
    while k < b
        invariant
            a <= k <= b,
            b <= s.len(),
            v@ == s@.subrange(a as int, k as int),
        decreases b - k,
    {
        v.push(s[k]);
        assert(v@ =~= s@.subrange(a as int, k + 1));
        k += 1;
    }
    v
}

fn read_dec(s: &[u8], i: usize) -> (res: Option<(u64, usize)>)
    requires
        i <= s.len(),
    ensures
        match res {
            Some((v, j)) => p_dec(s@, i as int) == Some((v, j as int)),
            None => p_dec(s@, i as int) is None,
        },
{
    if at(s, i, 48u8) {
        return Some((0, i + 1));
    }
    if i < s.len() && 49u8 <= s[i] && s[i] <= 57u8 {
        proof { text::lemma_digit_run(s@, i + 1); }
        let (j, v) = scan_u64(s, i);
        assert(j == i + 1 + text::digit_run(s@, i + 1)) by {
            assert(text::digit_run(s@, i as int) == 1 + text::digit_run(s@, i + 1));
        }
        match v {
            Some(v) => Some((v, j)),
            None => None,
        }
    } else {
        None
    }
}

fn read_dest(s: &[u8], i: usize) -> (res: Option<(Dest, usize)>)
    requires
        i <= s.len(),
    ensures
        match res {
            Some((d, j)) => p_dest(s@, i as int) == Some((dest_view(d), j as int)),
            None => p_dest(s@, i as int) is None,
        },
{
    if at(s, i, 65u8) {
        Some((Dest::A, i + 1))
    } else if at(s, i, 82u8) {
        Some((Dest::R, i + 1))
    } else {
        let j = lower_end(s, i);
        if j > i {
            Some((Dest::Forward(copy_range(s, i, j)), j))
        } else {
            None
        }
    }
}

fn categ_from(c: u8) -> (res: Option<Category>)
    ensures
        res == categ_of(c),
{
    if c == 120u8 {
        Some(Category::X)
    } else if c == 109u8 {
        Some(Category::M)
    } else if c == 97u8 {
        Some(Category::A)
    } else if c == 115u8 {
        Some(Category::S)
    } else {
        None
    }
}

fn op_from(c: u8) -> (res: Option<Op>)
    ensures
        res == op_of(c),
{
    if c == 62u8 { Some(Op::Gt) } else if c == 60u8 { Some(Op::Lt) } else { None }
}

fn read_cond(s: &[u8], i: usize) -> (res: Option<(Condition, usize)>)
    requires
        i <= s.len(),
    ensures
        match res {
            Some((c, j)) => p_cond(s@, i as int) == Some((cond_view(c), j as int)),
            None => p_cond(s@, i as int) is None,
        },
{
    if i >= s.len() || s.len() - i < 2 {
        return None;
    }
    let categ = match categ_from(s[i]) {
        Some(c) => c,
        None => {
            return None;
        },
    };
    let op = match op_from(s[i + 1]) {
        Some(o) => o,
        None => {
            return None;
        },
    };
    let (n, j) = match read_dec(s, i + 2) {
        Some(r) => r,
        None => {
            return None;
        },
    };
    proof { lemma_p_dec(s@, i + 2); }
    if !at(s, j, 58u8) {
        return None;
    }
    let (d, k) = match read_dest(s, j + 1) {
        Some(r) => r,
        None => {
            return None;
        },
    };
    Some((Condition { categ, op, thresh: n, dest: d }, k))
}

#[verifier::loop_isolation(false)]
fn read_workflow(s: &[u8], i: usize) -> (res: Option<(Workflow, usize)>)
    requires
        i <= s.len(),
    ensures
        match res {
            Some((w, j)) => p_workflow(s@, i as int) == Some((workflow_view(w), j as int)),
            None => p_workflow(s@, i as int) is None,
        },
{
    let e = lower_end(s, i);
    if e == i || !at(s, e, 123u8) {
        return None;
    }
    let name = copy_range(s, i, e);
    let mut conds: Vec<Condition> = Vec::new();
    let mut p = e + 1;
    let ghost total = p_conds(s@, (e + 1) as int);
    loop
        invariant
            e + 1 <= p <= s.len(),
            total == p_conds(s@, (e + 1) as int),
            total == (conds@.map_values(|c: Condition| cond_view(c)) + p_conds(s@, p as int).0, p_conds(s@, p as int).1),
        decreases s.len() - p,
    {
        let ghost before = conds@.map_values(|c: Condition| cond_view(c));
        proof { lemma_p_cond(s@, p as int); }
        match read_cond(s, p) {
            Some((c, j)) => {
                if at(s, j, 44u8) {
                    let ghost cv = cond_view(c);
                    conds.push(c);
                    proof {
                        assert(conds@.map_values(|c: Condition| cond_view(c)) =~= before.push(cv));
                        let r = p_conds(s@, j + 1);
                        assert(before + (seq![cv] + r.0) =~= before.push(cv) + r.0);
                    }
                    p = j + 1;
                } else {
                    assert(before + Seq::<CondV>::empty() =~= before);
                    break;
                }
            },
            None => {
                assert(before + Seq::<CondV>::empty() =~= before);
                break;
            },
        }
    }
    let (d, k) = match read_dest(s, p) {
        Some(r) => r,
        None => {
            return None;
        },
    };
    proof { lemma_p_dest(s@, p as int); }
    if !at(s, k, 125u8) {
        return None;
    }
    let end = if at(s, k + 1, 10u8) {
        k + 2
    } else if k + 1 == s.len() {
        k + 1
    } else {
        return None;
    };
    Some((Workflow { name, conditions: conds, default: d }, end))
}


fn read_rating(s: &[u8], i: usize, c: u8) -> (res: Option<(u64, usize)>)
    requires
        i <= s.len(),
    ensures
        match res {
            Some((v, j)) => p_rating(s@, i as int, c) == Some((v, j as int)) && i < j <= s.len(),
            None => p_rating(s@, i as int, c) is None,
        },
{
    if at(s, i, c) && at(s, i + 1, 61u8) {
        proof { lemma_p_dec(s@, i + 2); }
        read_dec(s, i + 2)
    } else {
        None
    }
}

fn read_part(s: &[u8], i: usize) -> (res: Option<(Part, usize)>)
    requires
        i <= s.len(),
    ensures
        match res {
            Some((p, j)) => p_part(s@, i as int) == Some((p.scores@, j as int)),
            None => p_part(s@, i as int) is None,
        },
{
    if !at(s, i, 123u8) {
        return None;
    }
    let (x, j1) = match read_rating(s, i + 1, 120u8) { Some(r) => r, None => { return None; } };
    if !at(s, j1, 44u8) {
        return None;
    }
    let (m, j2) = match read_rating(s, j1 + 1, 109u8) { Some(r) => r, None => { return None; } };
    if !at(s, j2, 44u8) {
        return None;
    }
    let (a, j3) = match read_rating(s, j2 + 1, 97u8) { Some(r) => r, None => { return None; } };
    if !at(s, j3, 44u8) {
        return None;
    }
    let (ss, j4) = match read_rating(s, j3 + 1, 115u8) { Some(r) => r, None => { return None; } };
    if !at(s, j4, 125u8) {
        return None;
    }
    let end = if at(s, j4 + 1, 10u8) {
        j4 + 2
    } else if j4 + 1 == s.len() {
        j4 + 1
    } else {
        return None;
    };
    let p = Part { scores: [x, m, a, ss] };
    assert(p.scores@ =~= seq![x, m, a, ss]);
    Some((p, end))
}

/// Reads the system (see `spec_system`).
#[verifier::loop_isolation(false)]
pub fn input_gen(input: &[u8]) -> (res: Result<System, ParseError>)
    ensures
        match res {
            Ok(sys) => spec_system(input@) == Some((workflows_view(sys.workflows@), parts_view(sys.parts@))),
            Err(e) => e == ParseError::Syntax && spec_system(input@) is None,
        },
{
    let s = input;
    let mut workflows: Vec<Workflow> = Vec::new();
    let mut i: usize = 0;
    let ghost wt = p_workflows(s@, 0);
    loop
        invariant
            i <= s.len(),
            wt == (workflows_view(workflows@) + p_workflows(s@, i as int).0, p_workflows(s@, i as int).1),
        decreases s.len() - i,
    {
        let ghost before = workflows_view(workflows@);
        match read_workflow(s, i) {
            Some((w, j)) => {
                if i < j && j <= s.len() {
                    let ghost wv = workflow_view(w);
                    workflows.push(w);
                    proof {
                        assert(workflows_view(workflows@) =~= before.push(wv));
                        let r = p_workflows(s@, j as int);
                        assert(before + (seq![wv] + r.0) =~= before.push(wv) + r.0);
                    }
                    i = j;
                } else {
                    assert(before + Seq::<WorkflowV>::empty() =~= before);
                    break;
                }
            },
            None => {
                assert(before + Seq::<WorkflowV>::empty() =~= before);
                break;
            },
        }
    }
    if workflows.len() == 0 || !at(s, i, 10u8) {
        return Err(ParseError::Syntax);
    }
    let mut parts: Vec<Part> = Vec::new();
    let mut q: usize = i + 1;
    let ghost pt = p_parts(s@, (i + 1) as int);
    loop
        invariant
            i + 1 <= q <= s.len(),
            pt == (parts_view(parts@) + p_parts(s@, q as int).0, p_parts(s@, q as int).1),
        decreases s.len() - q,
    {
        let ghost before = parts_view(parts@);
        match read_part(s, q) {
            Some((p, j)) => {
                if q < j && j <= s.len() {
                    let ghost pv = p.scores@;
                    parts.push(p);
                    proof {
                        assert(parts_view(parts@) =~= before.push(pv));
                        let r = p_parts(s@, j as int);
                        assert(before + (seq![pv] + r.0) =~= before.push(pv) + r.0);
                    }
                    q = j;
                } else {
                    assert(before + Seq::<Seq<u64>>::empty() =~= before);
                    break;
                }
            },
            None => {
                assert(before + Seq::<Seq<u64>>::empty() =~= before);
                break;
            },
        }
    }
    if parts.len() == 0 || q != s.len() {
        return Err(ParseError::Syntax);
    }
    Ok(System { workflows, parts })
}


/// The index of the workflow called `key` among the first `n`: the last one
/// so called, or -1.
pub open spec fn lookup_in(ws: Seq<WorkflowV>, key: Seq<u8>, n: int) -> int
    decreases n,
{
    if n <= 0 {
        -1
    } else if ws[n - 1].name == key {
        n - 1
    } else {
        lookup_in(ws, key, n - 1)
    }
}

pub open spec fn lookup(ws: Seq<WorkflowV>, key: Seq<u8>) -> int {
    lookup_in(ws, key, ws.len() as int)
}

pub proof fn lemma_lookup_in(ws: Seq<WorkflowV>, key: Seq<u8>, n: int)
    requires
        0 <= n <= ws.len(),
    ensures
        -1 <= lookup_in(ws, key, n) < n,
    decreases n,
{
    if n > 0 {
        lemma_lookup_in(ws, key, n - 1);
    }
}

/// Finds the workflow called `key` (see `lookup`).
fn find_workflow(ws: &Vec<Workflow>, key: &[u8]) -> (res: Option<usize>)
    ensures
        match res {
            Some(i) => i == lookup(workflows_view(ws@), key@) && i < ws@.len(),
            None => lookup(workflows_view(ws@), key@) == -1,
        },
{
    let ghost wv = workflows_view(ws@);
    let mut n = ws.len();
    while n > 0
        invariant
            n <= ws@.len(),
            wv == workflows_view(ws@),
            lookup(wv, key@) == lookup_in(wv, key@, n as int),
        decreases n,
    {
        if same_bytes(ws[n - 1].name.as_slice(), key) {
            return Some(n - 1);
        }
        n -= 1;
    }
    None
}

pub open spec fn cat_idx(c: Category) -> int {
    match c {
        Category::X => 0,
        Category::M => 1,
        Category::A => 2,
        Category::S => 3,
    }
}

fn cat_index(c: Category) -> (res: usize)
    ensures
        res == cat_idx(c),
{
    match c {
        Category::X => 0,
        Category::M => 1,
        Category::A => 2,
        Category::S => 3,
    }
}

/// Whether the part with ratings `p` meets the condition `c`.
pub open spec fn cond_holds(c: CondV, p: Seq<u64>) -> bool {
    match c.op {
        Op::Lt => p[cat_idx(c.categ)] < c.thresh,
        Op::Gt => p[cat_idx(c.categ)] > c.thresh,
    }
}

/// Whether the part `p` meets the condition `c`.
pub fn match_cond(c: &Condition, p: &Part) -> (res: bool)
    ensures
        res == cond_holds(cond_view(*c), p.scores@),
{
    let v = p.scores[cat_index(c.categ)];
    match c.op {
        Op::Lt => v < c.thresh,
        Op::Gt => v > c.thresh,
    }
}

/// Where the conditions `cs[j..]` send the part `p`: the destination of the
/// first that it meets, else `default`.
pub open spec fn route(cs: Seq<CondV>, j: int, default: DestV, p: Seq<u64>) -> DestV
    decreases cs.len() - j,
{
    if j < 0 || j >= cs.len() {
        default
    } else if cond_holds(cs[j], p) {
        cs[j].dest
    } else {
        route(cs, j + 1, default, p)
    }
}

pub open spec fn kw_in() -> Seq<u8> { seq![105u8, 110] }

/// Whether the part `p` is accepted once it has gone from workflow `name`
/// through at most `k` more workflows; `None` where it reaches a workflow
/// that does not exist, or needs more.
pub open spec fn verdict(ws: Seq<WorkflowV>, name: Seq<u8>, p: Seq<u64>, k: nat) -> Option<bool>
    decreases k,
{
    let idx = lookup(ws, name);
    if idx < 0 {
        None
    } else {
        match route(ws[idx].conditions, 0, ws[idx].default, p) {
            DestV::A => Some(true),
            DestV::R => Some(false),
            DestV::Forward(n) => if k == 0 { None } else { verdict(ws, n, p, (k - 1) as nat) },
        }
    }
}

/// The walk of part `p` from workflow `in` ends.
pub open spec fn decided(ws: Seq<WorkflowV>, p: Seq<u64>) -> bool {
    exists|k: nat| verdict(ws, kw_in(), p, k) is Some
}

pub open spec fn verdict_fuel(ws: Seq<WorkflowV>, p: Seq<u64>) -> nat {
    choose|k: nat| verdict(ws, kw_in(), p, k) is Some
}

pub open spec fn accepted(ws: Seq<WorkflowV>, p: Seq<u64>) -> bool {
    verdict(ws, kw_in(), p, verdict_fuel(ws, p)) == Some(true)
}

pub open spec fn rating_sum(p: Seq<u64>) -> int {
    p[0] + p[1] + p[2] + p[3]
}

/// The sum of the ratings of the accepted parts among the first `n`.
pub open spec fn accepted_total(ws: Seq<WorkflowV>, ps: Seq<Seq<u64>>, n: int) -> int
    decreases n,
{
    if n <= 0 {
        0
    } else {
        accepted_total(ws, ps, n - 1) + if accepted(ws, ps[n - 1]) { rating_sum(ps[n - 1]) } else { 0 }
    }
}

proof fn lemma_accepted_total_mono(ws: Seq<WorkflowV>, ps: Seq<Seq<u64>>, n: int, m: int)
    requires
        0 <= n <= m,
    ensures
        accepted_total(ws, ps, n) <= accepted_total(ws, ps, m),
    decreases m - n,
{
    if n < m {
        lemma_accepted_total_mono(ws, ps, n, m - 1);
    }
}

/// Whether `p` is accepted, starting at workflow `in` (see `verdict`).
fn is_accepted(sys: &System, p: &Part) -> (res: bool)
    requires
        decided(workflows_view(sys.workflows@), p.scores@),
    ensures
        res == accepted(workflows_view(sys.workflows@), p.scores@),
{
    let ghost ws = workflows_view(sys.workflows@);
    let ghost fuel = verdict_fuel(ws, p.scores@);
    let start: Vec<u8> = vec![105u8, 110];
    assert(start@ =~= kw_in());
    let mut cur: Vec<u8> = start;
    let ghost mut k: nat = fuel;
    loop
        invariant
            ws == workflows_view(sys.workflows@),
            fuel == verdict_fuel(ws, p.scores@),
            verdict(ws, cur@, p.scores@, k) is Some,
            verdict(ws, kw_in(), p.scores@, fuel) == verdict(ws, cur@, p.scores@, k),
        decreases k,
    {
        let idx = match find_workflow(&sys.workflows, cur.as_slice()) {
            Some(i) => i,
            None => {
                return false;
            },
        };
        let w = &sys.workflows[idx];
        assert(ws[idx as int] == workflow_view(*w));
        let ghost cv = ws[idx as int].conditions;
        let mut j: usize = 0;
        let mut dest: Option<&Dest> = None;
        while j < w.conditions.len() && dest.is_none()
            invariant
                j <= w.conditions@.len(),
                cv == w.conditions@.map_values(|c: Condition| cond_view(c)),
                dest is None ==> route(cv, 0, dest_view(w.default), p.scores@) == route(cv, j as int, dest_view(w.default), p.scores@),
                dest matches Some(d) ==> route(cv, 0, dest_view(w.default), p.scores@) == dest_view(*d),
            decreases w.conditions@.len() - j,
        {
            if match_cond(&w.conditions[j], p) {
                dest = Some(&w.conditions[j].dest);
            }
            j += 1;
        }
        let d = match dest {
            Some(d) => d,
            None => &w.default,
        };
        match d {
            Dest::A => {
                return true;
            },
            Dest::R => {
                return false;
            },
            Dest::Forward(n) => {
                cur = n.clone();
                assert(cur@ == n@);
                proof { k = (k - 1) as nat; }
            },
        }
    }
}

/// The sum of all ratings of the parts that the workflows accept, starting
/// each part at workflow `in`.
pub fn part1(input: &System) -> (res: u64)
    requires
        forall|i: int| 0 <= i < input.parts@.len() ==> decided(workflows_view(input.workflows@), #[trigger] input.parts@[i].scores@),
        accepted_total(workflows_view(input.workflows@), parts_view(input.parts@), input.parts@.len() as int) <= u64::MAX,
    ensures
        res == accepted_total(workflows_view(input.workflows@), parts_view(input.parts@), input.parts@.len() as int),
{
    let ghost ws = workflows_view(input.workflows@);
    let ghost ps = parts_view(input.parts@);
    let mut total: u64 = 0;
    let mut i: usize = 0;
    while i < input.parts.len()
        invariant
            i <= input.parts@.len(),
            ws == workflows_view(input.workflows@),
            ps == parts_view(input.parts@),
            total == accepted_total(ws, ps, i as int),
            accepted_total(ws, ps, input.parts@.len() as int) <= u64::MAX,
            forall|i: int| 0 <= i < input.parts@.len() ==> decided(ws, #[trigger] input.parts@[i].scores@),
        decreases input.parts@.len() - i,
    {
        let p = &input.parts[i];
        assert(ps[i as int] == p.scores@);
        assert(decided(ws, input.parts@[i as int].scores@));
        if is_accepted(input, p) {
            proof { lemma_accepted_total_mono(ws, ps, i + 1, input.parts@.len() as int); }
            total = total + p.scores[0] + p.scores[1] + p.scores[2] + p.scores[3];
        }
        i += 1;
    }
    total
}


/// The range `min..=max` of a rating that a probe still admits.
#[derive(Debug, Clone, Copy, PartialEq, Eq, Structural)]
pub struct Constraints {
    pub min: u64,
    pub max: u64,
}

impl Default for Constraints {
    fn default() -> (res: Constraints)
        ensures
            res == (Constraints { min: 1, max: 4000 }),
    {
        Constraints { min: 1, max: 4000 }
    }
}

/// Adds the condition "compares with `thresh` by `op`" to the range `c`;
/// `None` unless the result has a `min` below its `max`.
pub open spec fn add_spec(c: Constraints, op: Op, thresh: int) -> Option<Constraints> {
    let r = match op {
        Op::Gt => Constraints { min: if c.min >= thresh + 1 { c.min } else { (thresh + 1) as u64 }, max: c.max },
        Op::Lt => Constraints { min: c.min, max: if c.max <= thresh - 1 { c.max } else { (thresh - 1) as u64 } },
    };
    if r.min < r.max { Some(r) } else { None }
}

/// Adding a condition to a range keeps exactly the ratings of the range that
/// meet the condition: where a range comes back, a rating lies in it if and
/// only if it lies in the old range and compares with `thresh` by `op`.
pub proof fn lemma_add(c: Constraints, op: Op, thresh: int, v: int)
    requires
        op is Gt ==> thresh < u64::MAX,
        op is Lt ==> 0 < thresh <= u64::MAX,
    ensures
        add_spec(c, op, thresh) matches Some(r) ==> ((r.min <= v <= r.max) <==> (c.min <= v <= c.max
            && (if op is Gt { v > thresh } else { v < thresh }))),
{
}

impl Constraints {
    /// See `add_spec`.
    pub fn add(&self, op: Op, thresh: u64) -> (res: Option<Constraints>)
        requires
            op is Gt ==> thresh < u64::MAX,
            op is Lt ==> thresh > 0,
        ensures
            res == add_spec(*self, op, thresh as int),
    {
        let mut ret = *self;
        match op {
            Op::Gt => {
                if ret.min < thresh + 1 {
                    ret.min = thresh + 1;
                }
            },
            Op::Lt => {
                if ret.max > thresh - 1 {
                    ret.max = thresh - 1;
                }
            },
        }
        if ret.min < ret.max {
            Some(ret)
        } else {
            None
        }
    }
}

/// The set of parts that may still take a path: one range per rating.
#[derive(Debug, Clone, Copy, PartialEq, Eq)]
pub struct PartProbe {
    pub scores: [Constraints; 4],
}

impl Default for PartProbe {
    fn default() -> (res: PartProbe)
        ensures
            res.scores@ == seq![Constraints { min: 1, max: 4000 }; 4],
    {
        let c = Constraints { min: 1, max: 4000 };
        let r = PartProbe { scores: [c, c, c, c] };
        assert(r.scores@ =~= seq![Constraints { min: 1, max: 4000 }; 4]);
        r
    }
}

/// A condition whose reverse can be formed without leaving the `u64` range.
pub open spec fn cond_safe(c: CondV) -> bool {
    (c.op is Gt ==> c.thresh < u64::MAX) && (c.op is Lt ==> c.thresh > 0)
}

/// The probe `p` split by the condition `c`: the part that meets it and the
/// part that does not, each `None` when empty.
pub open spec fn constrain_spec(p: Seq<Constraints>, c: CondV) -> (Option<Seq<Constraints>>, Option<Seq<Constraints>>) {
    let idx = cat_idx(c.categ);
    let r1 = match add_spec(p[idx], c.op, c.thresh as int) {
        Some(x) => Some(p.update(idx, x)),
        None => None,
    };
    let (rop, rt) = if c.op is Gt { (Op::Lt, c.thresh + 1) } else { (Op::Gt, c.thresh - 1) };
    let r2 = match add_spec(p[idx], rop, rt) {
        Some(x) => Some(p.update(idx, x)),
        None => None,
    };
    (r1, r2)
}

fn with_score(p: PartProbe, idx: usize, c: Constraints) -> (res: PartProbe)
    requires
        idx < 4,
    ensures
        res.scores@ == p.scores@.update(idx as int, c),
{
    let s = p.scores;
    let r = PartProbe {
        scores: [
            if idx == 0 { c } else { s[0] },
            if idx == 1 { c } else { s[1] },
            if idx == 2 { c } else { s[2] },
            if idx == 3 { c } else { s[3] },
        ],
    };
    assert(r.scores@ =~= p.scores@.update(idx as int, c));
    r
}

impl PartProbe {
    /// See `constrain_spec`.
    pub fn constrain(&self, cond: &Condition) -> (res: (Option<PartProbe>, Option<PartProbe>))
        requires
            cond_safe(cond_view(*cond)),
        ensures
            (match res.0 { Some(p) => Some(p.scores@), None => None }) == constrain_spec(self.scores@, cond_view(*cond)).0,
            (match res.1 { Some(p) => Some(p.scores@), None => None }) == constrain_spec(self.scores@, cond_view(*cond)).1,
    {
        let idx = cat_index(cond.categ);
        let r1 = match self.scores[idx].add(cond.op, cond.thresh) {
            Some(c) => Some(with_score(*self, idx, c)),
            None => None,
        };
        let (rev_op, rev_thresh) = if cond.op == Op::Gt {
            (Op::Lt, cond.thresh + 1)
        } else {
            (Op::Gt, cond.thresh - 1)
        };
        let r2 = match self.scores[idx].add(rev_op, rev_thresh) {
            Some(c) => Some(with_score(*self, idx, c)),
            None => None,
        };
        (r1, r2)
    }
}

/// The number of parts that a probe admits.
pub open spec fn combos(p: Seq<Constraints>) -> int {
    (p[0].max - p[0].min + 1) * (p[1].max - p[1].min + 1) * (p[2].max - p[2].min + 1) * (p[3].max - p[3].min + 1)
}

/// Every range of the probe lies within `1..=4000` and is not empty.
pub open spec fn probe_ok(p: Seq<Constraints>) -> bool {
    p.len() == 4 && forall|i: int| 0 <= i < 4 ==> 1 <= (#[trigger] p[i]).min <= p[i].max <= 4000
}

pub open spec fn flow_rank(w: WorkflowV, c: int) -> int {
    if c < w.conditions.len() { w.conditions.len() - c + 1 } else { 1 }
}

/// The number of parts of the probe `p` that workflow `w` accepts from its
/// condition `c` on, with at most `k` more workflows to go through. A
/// condition splits the probe: the part that meets it goes to the
/// condition's destination, the rest on to the next condition; where no
/// part is left for the next condition, the whole of `p` also goes to the
/// default destination. `None` where a workflow is missing, more are
/// needed, or a condition's reverse leaves the `u64` range.
pub open spec fn flow(ws: Seq<WorkflowV>, w: WorkflowV, c: int, p: Seq<Constraints>, k: nat) -> Option<int>
    decreases k, flow_rank(w, c),
{
    if c < 0 || c >= w.conditions.len() {
        dest_count(ws, w.default, p, k)
    } else {
        let cond = w.conditions[c];
        if !cond_safe(cond) {
            None
        } else {
            let (m, nm) = constrain_spec(p, cond);
            let a = match m {
                Some(np) => dest_count(ws, cond.dest, np, k),
                None => Some(0int),
            };
            let b = match nm {
                Some(np2) => flow(ws, w, c + 1, np2, k),
                None => dest_count(ws, w.default, p, k),
            };
            match (a, b) {
                (Some(x), Some(y)) => Some(x + y),
                _ => None,
            }
        }
    }
}

/// The number of parts of the probe `p` accepted once sent to `d`.
pub open spec fn dest_count(ws: Seq<WorkflowV>, d: DestV, p: Seq<Constraints>, k: nat) -> Option<int>
    decreases k, 0int,
{
    match d {
        DestV::A => Some(combos(p)),
        DestV::R => Some(0),
        DestV::Forward(n) => {
            if k == 0 {
                None
            } else {
                let idx = lookup(ws, n);
                if idx < 0 || idx >= ws.len() {
                    None
                } else {
                    flow(ws, ws[idx], 0, p, (k - 1) as nat)
                }
            }
        },
    }
}

pub open spec fn full_probe() -> Seq<Constraints> {
    seq![Constraints { min: 1, max: 4000 }; 4]
}

pub open spec fn accepted_combos(ws: Seq<WorkflowV>, k: nat) -> Option<int> {
    dest_count(ws, DestV::Forward(kw_in()), full_probe(), k + 1)
}

pub open spec fn combos_fuel(ws: Seq<WorkflowV>) -> nat {
    choose|k: nat| accepted_combos(ws, k) is Some
}

proof fn lemma_combos_bounds(p: Seq<Constraints>)
    requires
        probe_ok(p),
    ensures
        1 <= combos(p) <= 4000 * 4000 * 4000 * 4000,
{
    let a = p[0].max - p[0].min + 1;
    let b = p[1].max - p[1].min + 1;
    let c = p[2].max - p[2].min + 1;
    let d = p[3].max - p[3].min + 1;
    assert(1 <= a <= 4000 && 1 <= b <= 4000 && 1 <= c <= 4000 && 1 <= d <= 4000);
    assert(1 <= a * b * c * d <= 4000 * 4000 * 4000 * 4000) by (nonlinear_arith)
        requires
            1 <= a <= 4000,
            1 <= b <= 4000,
            1 <= c <= 4000,
            1 <= d <= 4000;
}

proof fn lemma_constrain_ok(p: Seq<Constraints>, c: CondV)
    requires
        probe_ok(p),
        cond_safe(c),
    ensures
        constrain_spec(p, c).0 matches Some(q) ==> probe_ok(q),
        constrain_spec(p, c).1 matches Some(q) ==> probe_ok(q),
{
    let idx = cat_idx(c.categ);
    assert(1 <= p[idx].min <= p[idx].max <= 4000);
    if let Some(q) = constrain_spec(p, c).0 {
        assert forall|i: int| 0 <= i < 4 implies 1 <= (#[trigger] q[i]).min <= q[i].max <= 4000 by {
            if i != idx {
                assert(q[i] == p[i]);
            }
        }
    }
    if let Some(q) = constrain_spec(p, c).1 {
        assert forall|i: int| 0 <= i < 4 implies 1 <= (#[trigger] q[i]).min <= q[i].max <= 4000 by {
            if i != idx {
                assert(q[i] == p[i]);
            }
        }
    }
}

proof fn lemma_counts_nonneg(ws: Seq<WorkflowV>, w: WorkflowV, c: int, p: Seq<Constraints>, d: DestV, k: nat)
    requires
        probe_ok(p),
    ensures
        flow(ws, w, c, p, k) matches Some(v) ==> v >= 0,
        dest_count(ws, d, p, k) matches Some(v) ==> v >= 0,
    decreases k, flow_rank(w, c),
{
    match d {
        DestV::A => { lemma_combos_bounds(p); },
        DestV::R => {},
        DestV::Forward(n) => {
            if k > 0 {
                let idx = lookup(ws, n);
                if 0 <= idx < ws.len() {
                    lemma_counts_nonneg(ws, ws[idx], 0, p, d, (k - 1) as nat);
                }
            }
        },
    }
    if c < 0 || c >= w.conditions.len() {
        lemma_counts_nonneg_dest(ws, w.default, p, k);
    } else {
        let cond = w.conditions[c];
        if cond_safe(cond) {
            lemma_constrain_ok(p, cond);
            let (m, nm) = constrain_spec(p, cond);
            if let Some(np) = m {
                lemma_counts_nonneg_dest(ws, cond.dest, np, k);
            }
            if let Some(np2) = nm {
                lemma_counts_nonneg(ws, w, c + 1, np2, d, k);
            } else {
                lemma_counts_nonneg_dest(ws, w.default, p, k);
            }
        }
    }
}

proof fn lemma_counts_nonneg_dest(ws: Seq<WorkflowV>, d: DestV, p: Seq<Constraints>, k: nat)
    requires
        probe_ok(p),
    ensures
        dest_count(ws, d, p, k) matches Some(v) ==> v >= 0,
    decreases k, 0int,
{
    match d {
        DestV::A => { lemma_combos_bounds(p); },
        DestV::R => {},
        DestV::Forward(n) => {
            if k > 0 {
                let idx = lookup(ws, n);
                if 0 <= idx < ws.len() {
                    lemma_counts_nonneg(ws, ws[idx], 0, p, d, (k - 1) as nat);
                }
            }
        },
    }
}

fn count_probe(p: &PartProbe) -> (res: u64)
    requires
        probe_ok(p.scores@),
    ensures
        res == combos(p.scores@),
{
    proof { lemma_combos_bounds(p.scores@); }
    let ghost q = p.scores@;
    assert(q[0] == p.scores[0] && q[1] == p.scores[1] && q[2] == p.scores[2] && q[3] == p.scores[3]);
    let a = p.scores[0].max - p.scores[0].min + 1;
    let b = p.scores[1].max - p.scores[1].min + 1;
    let c = p.scores[2].max - p.scores[2].min + 1;
    let d = p.scores[3].max - p.scores[3].min + 1;
    assert(a * b <= 4000 * 4000 && a * b * c <= 4000 * 4000 * 4000) by (nonlinear_arith)
        requires
            1 <= a <= 4000,
            1 <= b <= 4000,
            1 <= c <= 4000;
    a * b * c * d
}

/// Counts the parts of `p` accepted from condition `c` of `w` on (see `flow`).
fn flow_count(sys: &System, w: &Workflow, c: usize, p: PartProbe, Ghost(k): Ghost<nat>) -> (res: u64)
    requires
        probe_ok(p.scores@),
        c <= w.conditions@.len(),
        flow(workflows_view(sys.workflows@), workflow_view(*w), c as int, p.scores@, k) matches Some(v) && v <= u64::MAX,
    ensures
        Some(res as int) == flow(workflows_view(sys.workflows@), workflow_view(*w), c as int, p.scores@, k),
    decreases k, flow_rank(workflow_view(*w), c as int),
{
    let ghost ws = workflows_view(sys.workflows@);
    let ghost wv = workflow_view(*w);
    if c >= w.conditions.len() {
        return dest_count_exec(sys, &w.default, p, Ghost(k));
    }
    let cond = &w.conditions[c];
    assert(wv.conditions[c as int] == cond_view(*cond));
    let (m, nm) = p.constrain(cond);
    proof {
        lemma_constrain_ok(p.scores@, cond_view(*cond));
        if let Some(np) = m {
            lemma_counts_nonneg_dest(ws, cond_view(*cond).dest, np.scores@, k);
        }
        if let Some(np2) = nm {
            lemma_counts_nonneg(ws, wv, c + 1, np2.scores@, DestV::R, k);
        } else {
            lemma_counts_nonneg_dest(ws, wv.default, p.scores@, k);
        }
    }
    let a = match m {
        Some(np) => dest_count_exec(sys, &cond.dest, np, Ghost(k)),
        None => 0,
    };
    let b = match nm {
        Some(np2) => flow_count(sys, w, c + 1, np2, Ghost(k)),
        None => dest_count_exec(sys, &w.default, p, Ghost(k)),
    };
    a + b
}

/// Counts the parts of `p` accepted once sent to `d` (see `dest_count`).
fn dest_count_exec(sys: &System, d: &Dest, p: PartProbe, Ghost(k): Ghost<nat>) -> (res: u64)
    requires
        probe_ok(p.scores@),
        dest_count(workflows_view(sys.workflows@), dest_view(*d), p.scores@, k) matches Some(v) && v <= u64::MAX,
    ensures
        Some(res as int) == dest_count(workflows_view(sys.workflows@), dest_view(*d), p.scores@, k),
    decreases k, 0int,
{
    match d {
        Dest::A => count_probe(&p),
        Dest::R => 0,
        Dest::Forward(n) => {
            let idx = find_workflow(&sys.workflows, n.as_slice());
            match idx {
                Some(i) => {
                    let w = &sys.workflows[i];
                    assert(workflows_view(sys.workflows@)[i as int] == workflow_view(*w));
                    flow_count(sys, w, 0, p, Ghost((k - 1) as nat))
                },
                None => 0,
            }
        },
    }
}

/// The number of rating combinations (each rating 1 to 4000) that the
/// workflows accept, starting at `in`.
pub fn part2(input: &System) -> (res: u64)
    requires
        exists|k: nat| accepted_combos(workflows_view(input.workflows@), k) is Some,
        accepted_combos(workflows_view(input.workflows@), combos_fuel(workflows_view(input.workflows@))).unwrap() <= u64::MAX,
    ensures
        Some(res as int) == accepted_combos(workflows_view(input.workflows@), combos_fuel(workflows_view(input.workflows@))),
{
    let ghost ws = workflows_view(input.workflows@);
    let ghost fuel = combos_fuel(ws);
    let start = Dest::Forward(vec![105u8, 110]);
    assert(dest_view(start) == DestV::Forward(kw_in()));
    let p = PartProbe::default();
    assert(probe_ok(p.scores@));
    dest_count_exec(input, &start, p, Ghost(fuel + 1))
}

} // verus!
