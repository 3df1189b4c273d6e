//! Lens library: the HASH algorithm and the HASHMAP of lens boxes.
use vstd::prelude::*;
use crate::text::{same_bytes, ParseError};

verus! {

/// A step of the initialization sequence: put a lens of the given focal
/// length under a label, or take the label's lens out.
#[derive(Debug, Clone, PartialEq, Eq)]
pub enum Step {
    Assign(Vec<u8>, u8),
    Remove(Vec<u8>),
}

pub enum StepV {
    Assign(Seq<u8>, u8),
    Remove(Seq<u8>),
}

pub open spec fn step_view(s: Step) -> StepV {
    match s {
        Step::Assign(l, n) => StepV::Assign(l@, n),
        Step::Remove(l) => StepV::Remove(l@),
    }
}

/// One byte of the HASH algorithm: add it, multiply by 17, keep the
/// remainder by 256.
pub open spec fn hash_byte(h: u8, c: u8) -> u8 {
    (((h + c) * 17) % 256) as u8
}

/// The HASH of the bytes `bs`, from the value `h` on.
pub open spec fn hash_from(h: u8, bs: Seq<u8>) -> u8
    decreases bs.len(),
{
    if bs.len() == 0 {
        h
    } else {
        hash_from(hash_byte(h, bs[0]), bs.drop_first())
    }
}

/// Things that the HASH algorithm can be run on, byte by byte.
pub trait Hash {
    /// The bytes that are hashed.
    spec fn hash_input(&self) -> Seq<u8>;

    /// Whether the bytes can be formed.
    spec fn hash_ok(&self) -> bool;

    /// Runs the HASH algorithm on `self`'s bytes, from the value `hasher`.
    fn hash(&self, hasher: &mut u8)
        requires
            self.hash_ok(),
        ensures
            *final(hasher) == hash_from(*old(hasher), self.hash_input()),
    ;
}

impl Hash for u8 {
    open spec fn hash_input(&self) -> Seq<u8> {
        seq![*self]
    }

    open spec fn hash_ok(&self) -> bool {
        true
    }

    fn hash(&self, hasher: &mut u8) {
        let ghost h0 = *hasher;
        let v: u32 = ((*hasher as u32 + *self as u32) * 17) % 256;
        *hasher = v as u8;
        proof {
            assert(seq![*self].drop_first() =~= Seq::<u8>::empty());
            reveal_with_fuel(hash_from, 2);
            assert(hash_from(h0, seq![*self]) == hash_byte(h0, *self));
        }
    }
}

impl Hash for Vec<u8> {
    open spec fn hash_input(&self) -> Seq<u8> {
        self@
    }

    open spec fn hash_ok(&self) -> bool {
        true
    }

    fn hash(&self, hasher: &mut u8) {
        let ghost h0 = *hasher;
        let mut i: usize = 0;
        assert(self@.skip(0) =~= self@);
        while i < self.len()
            invariant
                i <= self@.len(),
                hash_from(h0, self@) == hash_from(*hasher, self@.skip(i as int)),
            decreases self@.len() - i,
        {
            assert(self@.skip(i as int).drop_first() =~= self@.skip(i + 1));
            let ghost hb = *hasher;
            let c = self[i];
            c.hash(hasher);
            proof {
                reveal_with_fuel(hash_from, 2);
                assert(hash_from(hb, seq![c]) == hash_byte(hb, c));
                assert(self@.skip(i as int)[0] == c);
            }
            i += 1;
        }
        assert(self@.skip(i as int) =~= Seq::<u8>::empty());
    }
}

pub proof fn lemma_hash_concat(h: u8, a: Seq<u8>, b: Seq<u8>)
    ensures
        hash_from(h, a + b) == hash_from(hash_from(h, a), b),
    decreases a.len(),
{
    if a.len() > 0 {
        assert((a + b).drop_first() =~= a.drop_first() + b);
        lemma_hash_concat(hash_byte(h, a[0]), a.drop_first(), b);
    } else {
        assert(a + b =~= b);
    }
}

impl Hash for Step {
    open spec fn hash_input(&self) -> Seq<u8> {
        match self {
            Step::Assign(l, n) => l@ + seq![61u8] + seq![(48 + *n) as u8],
            Step::Remove(l) => l@ + seq![45u8],
        }
    }

    open spec fn hash_ok(&self) -> bool {
        match self {
            Step::Assign(l, n) => 48 + *n <= 255,
            Step::Remove(l) => true,
        }
    }

    fn hash(&self, hasher: &mut u8) {
        let ghost h0 = *hasher;
        match self {
            Step::Assign(l, n) => {
                l.hash(hasher);
                61u8.hash(hasher);
                (48u8 + *n).hash(hasher);
                proof {
                    lemma_hash_concat(h0, l@, seq![61u8]);
                    lemma_hash_concat(h0, l@ + seq![61u8], seq![(48 + *n) as u8]);
                }
            },
            Step::Remove(l) => {
                l.hash(hasher);
                45u8.hash(hasher);
                proof { lemma_hash_concat(h0, l@, seq![45u8]); }
            },
        }
    }
}

/// The HASH of `t`.
pub fn hash<T: Hash>(t: &T) -> (res: usize)
    requires
        t.hash_ok(),
    ensures
        res == hash_from(0, t.hash_input()),
{
    let mut hasher: u8 = 0;
    t.hash(&mut hasher);
    hasher as usize
}


pub open spec fn is_lower(c: u8) -> bool {
    97u8 <= c <= 122u8
}

pub open spec fn lower_run(s: Seq<u8>, i: int) -> nat
    decreases s.len() - i,
{
    if 0 <= i < s.len() && is_lower(s[i]) { 1 + lower_run(s, i + 1) } else { 0 }
}

pub proof fn lemma_lower_run(s: Seq<u8>, i: int)
    requires
        0 <= i <= s.len(),
    ensures
        i + lower_run(s, i) <= s.len(),
    decreases s.len() - i,
{
    if i < s.len() && is_lower(s[i]) {
        lemma_lower_run(s, i + 1);
    }
}

pub open spec fn byte_is(s: Seq<u8>, i: int, c: u8) -> bool {
    0 <= i < s.len() && s[i] == c
}

/// A step at `i`: a label of `[a-z]+`, then `-`, or `=` and a digit from 1
/// to 9.
pub open spec fn p_step(s: Seq<u8>, i: int) -> Option<(StepV, int)> {
    let r = lower_run(s, i);
    if 0 <= i && r > 0 {
        let l = s.subrange(i, i + r);
        if byte_is(s, i + r, 45u8) {
            Some((StepV::Remove(l), i + r + 1))
        } else if byte_is(s, i + r, 61u8) && 0 <= i + r + 1 < s.len() && 49u8 <= s[i + r + 1] <= 57u8 {
            Some((StepV::Assign(l, (s[i + r + 1] - 48) as u8), i + r + 2))
        } else {
            None
        }
    } else {
        None
    }
}

pub proof fn lemma_p_step(s: Seq<u8>, i: int)
    ensures
        p_step(s, i) matches Some((st, j)) ==> i < j <= s.len(),
{
    if 0 <= i <= s.len() {
        lemma_lower_run(s, i);
    }
}

/// More steps, each after a comma, from `j` on.
pub open spec fn p_more(s: Seq<u8>, j: int) -> (Seq<StepV>, int)
    decreases s.len() - j,
{
    if byte_is(s, j, 44u8) {
        match p_step(s, j + 1) {
            Some((st, k)) => if j < k <= s.len() {
                let r = p_more(s, k);
                (seq![st] + r.0, r.1)
            } else {
                (Seq::empty(), j)
            },
            None => (Seq::empty(), j),
        }
    } else {
        (Seq::empty(), j)
    }
}

/// The steps that `s` holds: steps separated by commas (possibly none), and
/// nothing else.
pub open spec fn spec_steps(s: Seq<u8>) -> Option<Seq<StepV>> {
    match p_step(s, 0) {
        Some((st, j)) => {
            let (r, k) = p_more(s, j);
            if k == s.len() { Some(seq![st] + r) } else { None }
        },
        None => if s.len() == 0 { Some(Seq::empty()) } else { None },
    }
}

fn at(s: &[u8], i: usize, c: u8) -> (res: bool)
    ensures
        res == byte_is(s@, i as int, c),
{
    i < s.len() && s[i] == c
}

fn copy_range(s: &[u8], a: usize, b: usize) -> (res: Vec<u8>)
    requires
        a <= b <= s.len(),
    ensures
        res@ == s@.subrange(a as int, b as int),
{
    let mut v: Vec<u8> = Vec::new();
    let mut k = a;
    while k < b
        invariant
            a <= k <= b,
            b <= s.len(),
            v@ == s@.subrange(a as int, k as int),
        decreases b - k,
    {
        v.push(s[k]);
        assert(v@ =~= s@.subrange(a as int, k + 1));
        k += 1;
    }
    v
}

fn read_step(s: &[u8], i: usize) -> (res: Option<(Step, usize)>)
    requires
        i <= s.len(),
    ensures
        match res {
            Some((st, j)) => p_step(s@, i as int) == Some((step_view(st), j as int)),
            None => p_step(s@, i as int) is None,
        },
{
    proof { lemma_lower_run(s@, i as int); }
    let mut e = i;
    while e < s.len() && 97u8 <= s[e] && s[e] <= 122u8
        invariant
            i <= e <= s.len(),
            lower_run(s@, i as int) == (e - i) + lower_run(s@, e as int),
        decreases s.len() - e,
    {
        e += 1;
    }
    if e == i {
        return None;
    }
    let l = copy_range(s, i, e);
    if at(s, e, 45u8) {
        Some((Step::Remove(l), e + 1))
    } else if at(s, e, 61u8) && e + 1 < s.len() && 49u8 <= s[e + 1] && s[e + 1] <= 57u8 {
        Some((Step::Assign(l, s[e + 1] - 48), e + 2))
    } else {
        None
    }
}

/// Reads the initialization sequence (see `spec_steps`).
#[verifier::loop_isolation(false)]
pub fn input_gen(input: &[u8]) -> (res: Result<Vec<Step>, ParseError>)
    ensures
        match res {
            Ok(v) => spec_steps(input@) == Some(v@.map_values(|st: Step| step_view(st))),
            Err(e) => e == ParseError::Syntax && spec_steps(input@) is None,
        },
{
    let s = input;
    let mut out: Vec<Step> = Vec::new();
    proof { lemma_p_step(s@, 0); }
    let (first, mut j) = match read_step(s, 0) {
        Some(r) => r,
        None => {
            if s.len() == 0 {
                assert(out@.map_values(|st: Step| step_view(st)) =~= Seq::<StepV>::empty());
                return Ok(out);
            }
            return Err(ParseError::Syntax);
        },
    };
    out.push(first);
    let ghost j0 = j;
    let ghost total = p_more(s@, j0 as int);
    loop
        invariant
            j0 <= j <= s.len(),
            out@.len() >= 1,
            total == p_more(s@, j0 as int),
            p_step(s@, 0) == Some((step_view(out@[0]), j0 as int)),
            (out@.map_values(|st: Step| step_view(st)).drop_first() + p_more(s@, j as int).0, p_more(s@, j as int).1) == total,
        decreases s.len() - j,
    {
        let ghost before = out@.map_values(|st: Step| step_view(st));
        if !at(s, j, 44u8) {
            assert(before.drop_first() + Seq::<StepV>::empty() =~= before.drop_first());
            break;
        }
        proof { lemma_p_step(s@, j + 1); }
        match read_step(s, j + 1) {
            Some((st, k)) => {
                let ghost sv = step_view(st);
                out.push(st);
                proof {
                    assert(out@.map_values(|st: Step| step_view(st)) =~= before.push(sv));
                    let r = p_more(s@, k as int);
                    assert(before.drop_first() + (seq![sv] + r.0) =~= before.push(sv).drop_first() + r.0);
                }
                j = k;
            },
            None => {
                assert(before.drop_first() + Seq::<StepV>::empty() =~= before.drop_first());
                break;
            },
        }
    }
    if j != s.len() {
        return Err(ParseError::Syntax);
    }
    proof {
        let v = out@.map_values(|st: Step| step_view(st));
        assert(v =~= seq![v[0]] + v.drop_first());
    }
    Ok(out)
}

/// The sum of the HASH of each step.
pub open spec fn hash_total(steps: Seq<Step>, n: int) -> int
    decreases n,
{
    if n <= 0 {
        0
    } else {
        hash_total(steps, n - 1) + hash_from(0, steps[n - 1].hash_input())
    }
}

/// The sum of the HASH of each step's text.
pub fn part1(input: &[Step]) -> (res: usize)
    requires
        forall|i: int| 0 <= i < input@.len() ==> (#[trigger] input@[i]).hash_ok(),
        input@.len() * 256 <= usize::MAX,
    ensures
        res == hash_total(input@, input@.len() as int),
{
    let mut sum: usize = 0;
    let mut i: usize = 0;
    while i < input.len()
        invariant
            i <= input@.len(),
            forall|i: int| 0 <= i < input@.len() ==> (#[trigger] input@[i]).hash_ok(),
            input@.len() * 256 <= usize::MAX,
            sum == hash_total(input@, i as int),
            sum <= i * 256,
        decreases input@.len() - i,
    {
        assert(input@[i as int].hash_ok());
        let h = hash(&input[i]);
        assert(i * 256 + 256 <= input@.len() * 256) by (nonlinear_arith)
            requires
                i < input@.len();
        sum = sum + h;
        i += 1;
    }
    sum
}


/// The first lens of `b` from `j` on labelled `l`, or `b.len()`.
pub open spec fn first_with(b: Seq<(Seq<u8>, u8)>, l: Seq<u8>, j: int) -> int
    decreases b.len() - j,
{
    if j < 0 || j >= b.len() {
        b.len() as int
    } else if b[j].0 == l {
        j
    } else {
        first_with(b, l, j + 1)
    }
}

/// The lenses of `b` not labelled `l`, in order.
pub open spec fn without_label(b: Seq<(Seq<u8>, u8)>, l: Seq<u8>) -> Seq<(Seq<u8>, u8)>
    decreases b.len(),
{
    if b.len() == 0 {
        Seq::empty()
    } else if b.last().0 == l {
        without_label(b.drop_last(), l)
    } else {
        without_label(b.drop_last(), l).push(b.last())
    }
}

/// The boxes after the step `st`: a lens is put in the box that its label
/// hashes to, in place of the lens of the same label if there is one, else
/// at the back; a removal takes the label's lenses out of that box.
pub open spec fn apply_step(bx: Seq<Seq<(Seq<u8>, u8)>>, st: StepV) -> Seq<Seq<(Seq<u8>, u8)>> {
    match st {
        StepV::Assign(l, f) => {
            let b = hash_from(0, l) as int;
            let i = first_with(bx[b], l, 0);
            if i < bx[b].len() {
                bx.update(b, bx[b].update(i, (bx[b][i].0, f)))
            } else {
                bx.update(b, bx[b].push((l, f)))
            }
        },
        StepV::Remove(l) => {
            let b = hash_from(0, l) as int;
            bx.update(b, without_label(bx[b], l))
        },
    }
}

/// The boxes after the first `n` steps, from 256 empty boxes.
pub open spec fn boxes_after(steps: Seq<StepV>, n: int) -> Seq<Seq<(Seq<u8>, u8)>>
    decreases n,
{
    if n <= 0 {
        Seq::new(256, |i: int| Seq::<(Seq<u8>, u8)>::empty())
    } else {
        apply_step(boxes_after(steps, n - 1), steps[n - 1])
    }
}

/// The focusing power of the first `n` lenses of box number `b`.
pub open spec fn bucket_power(b: int, bucket: Seq<(Seq<u8>, u8)>, n: int) -> int
    decreases n,
{
    if n <= 0 {
        0
    } else {
        bucket_power(b, bucket, n - 1) + (b + 1) * n * bucket[n - 1].1
    }
}

/// The focusing power of the first `m` boxes.
pub open spec fn boxes_power(bx: Seq<Seq<(Seq<u8>, u8)>>, m: int) -> int
    decreases m,
{
    if m <= 0 {
        0
    } else {
        boxes_power(bx, m - 1) + bucket_power(m - 1, bx[m - 1], bx[m - 1].len() as int)
    }
}

pub open spec fn bucket_view(b: Seq<(Vec<u8>, u8)>) -> Seq<(Seq<u8>, u8)> {
    b.map_values(|p: (Vec<u8>, u8)| (p.0@, p.1))
}

pub open spec fn boxes_view(v: Seq<Vec<(Vec<u8>, u8)>>) -> Seq<Seq<(Seq<u8>, u8)>> {
    v.map_values(|b: Vec<(Vec<u8>, u8)>| bucket_view(b@))
}

proof fn lemma_bucket_power_nonneg(b: int, bucket: Seq<(Seq<u8>, u8)>, n: int)
    requires
        0 <= b,
    ensures
        0 <= bucket_power(b, bucket, n),
    decreases n,
{
    if n > 0 {
        lemma_bucket_power_nonneg(b, bucket, n - 1);
        let f = bucket[n - 1].1 as int;
        assert((b + 1) * n * f >= 0) by (nonlinear_arith)
            requires
                b >= 0,
                n >= 0,
                f >= 0;
    }
}

proof fn lemma_bucket_power_mono(b: int, bucket: Seq<(Seq<u8>, u8)>, n: int, m: int)
    requires
        0 <= b,
        0 <= n <= m,
    ensures
        bucket_power(b, bucket, n) <= bucket_power(b, bucket, m),
    decreases m - n,
{
    if n < m {
        lemma_bucket_power_mono(b, bucket, n, m - 1);
        let f = bucket[m - 1].1 as int;
        assert((b + 1) * m * f >= 0) by (nonlinear_arith)
            requires
                b >= 0,
                m >= 0,
                f >= 0;
    }
}

proof fn lemma_boxes_power_nonneg(bx: Seq<Seq<(Seq<u8>, u8)>>, n: int)
    ensures
        0 <= boxes_power(bx, n),
    decreases n,
{
    if n > 0 {
        lemma_boxes_power_nonneg(bx, n - 1);
        lemma_bucket_power_nonneg(n - 1, bx[n - 1], bx[n - 1].len() as int);
    }
}

proof fn lemma_boxes_power_mono(bx: Seq<Seq<(Seq<u8>, u8)>>, n: int, m: int)
    requires
        0 <= n <= m,
    ensures
        boxes_power(bx, n) <= boxes_power(bx, m),
    decreases m - n,
{
    if n < m {
        lemma_boxes_power_mono(bx, n, m - 1);
        lemma_bucket_power_nonneg(m - 1, bx[m - 1], bx[m - 1].len() as int);
    }
}

proof fn lemma_first_with(b: Seq<(Seq<u8>, u8)>, l: Seq<u8>, j: int)
    requires
        0 <= j <= b.len(),
    ensures
        j <= first_with(b, l, j) <= b.len(),
    decreases b.len() - j,
{
    if j < b.len() && b[j].0 != l {
        lemma_first_with(b, l, j + 1);
    }
}

proof fn lemma_without_label_len(b: Seq<(Seq<u8>, u8)>, l: Seq<u8>)
    ensures
        without_label(b, l).len() <= b.len(),
    decreases b.len(),
{
    if b.len() > 0 {
        lemma_without_label_len(b.drop_last(), l);
    }
}

/// After `n` steps there are 256 boxes, none with more than `n` lenses.
proof fn lemma_boxes_after(steps: Seq<StepV>, n: int)
    requires
        0 <= n <= steps.len(),
    ensures
        boxes_after(steps, n).len() == 256,
        forall|b: int| 0 <= b < 256 ==> (#[trigger] boxes_after(steps, n)[b]).len() <= n,
    decreases n,
{
    if n > 0 {
        lemma_boxes_after(steps, n - 1);
        let bx = boxes_after(steps, n - 1);
        match steps[n - 1] {
            StepV::Assign(l, f) => {
                let h = hash_from(0, l) as int;
                assert(boxes_after(steps, n) == apply_step(bx, steps[n - 1]));
                let i = first_with(bx[h], l, 0);
                lemma_first_with(bx[h], l, 0);
                assert forall|b: int| 0 <= b < 256 implies (#[trigger] boxes_after(steps, n)[b]).len() <= n by {
                    assert(bx[b].len() <= n - 1);
                    if b == h {
                        if i < bx[h].len() {
                            assert(boxes_after(steps, n)[b] == bx[h].update(i, (bx[h][i].0, f)));
                        } else {
                            assert(boxes_after(steps, n)[b] == bx[h].push((l, f)));
                        }
                    }
                }
            },
            StepV::Remove(l) => {
                let h = hash_from(0, l) as int;
                lemma_without_label_len(bx[h], l);
                assert forall|b: int| 0 <= b < 256 implies (#[trigger] boxes_after(steps, n)[b]).len() <= n by {
                    assert(bx[b].len() <= n - 1);
                }
            },
        }
    }
}

proof fn lemma_first_with_found(b: Seq<(Seq<u8>, u8)>, l: Seq<u8>, j: int)
    requires
        0 <= j <= b.len(),
    ensures
        first_with(b, l, j) < b.len() ==> b[first_with(b, l, j)].0 == l,
        forall|k: int| j <= k < first_with(b, l, j) ==> (#[trigger] b[k]).0 != l,
    decreases b.len() - j,
{
    if j < b.len() && b[j].0 != l {
        lemma_first_with_found(b, l, j + 1);
    }
}

/// No two lenses of the box share a label.
pub open spec fn labels_unique(b: Seq<(Seq<u8>, u8)>) -> bool {
    forall|i: int, j: int| #![trigger b[i], b[j]] 0 <= i < j < b.len() ==> b[i].0 != b[j].0
}

proof fn lemma_without_label(b: Seq<(Seq<u8>, u8)>, l: Seq<u8>)
    ensures
        forall|i: int| 0 <= i < without_label(b, l).len() ==> (#[trigger] without_label(b, l)[i]).0 != l,
        forall|i: int| 0 <= i < without_label(b, l).len() ==> b.contains(#[trigger] without_label(b, l)[i]),
        forall|k: int| 0 <= k < b.len() && (#[trigger] b[k]).0 != l ==> without_label(b, l).contains(b[k]),
        labels_unique(b) ==> labels_unique(without_label(b, l)),
    decreases b.len(),
{
    if b.len() > 0 {
        let p = b.drop_last();
        let w = without_label(p, l);
        lemma_without_label(p, l);
        let r = without_label(b, l);
        assert forall|i: int| 0 <= i < w.len() implies b.contains(#[trigger] w[i]) by {
            assert(p.contains(w[i]));
            let k = choose|k: int| 0 <= k < p.len() && p[k] == w[i];
            assert(b[k] == w[i]);
        }
        if labels_unique(b) {
            assert forall|i: int, j: int| #![trigger p[i], p[j]] 0 <= i < j < p.len() implies p[i].0 != p[j].0 by {
                assert(p[i] == b[i] && p[j] == b[j]);
            }
        }
        if b.last().0 == l {
            assert(r == w);
            assert forall|k: int| 0 <= k < b.len() && (#[trigger] b[k]).0 != l implies r.contains(b[k]) by {
                assert(p[k] == b[k]);
            }
        } else {
            assert(r == w.push(b.last()));
            assert forall|i: int| 0 <= i < r.len() implies b.contains(#[trigger] r[i]) by {
                if i < w.len() {
                    assert(r[i] == w[i]);
                } else {
                    assert(b[b.len() - 1] == r[i]);
                }
            }
            assert forall|i: int| 0 <= i < r.len() implies (#[trigger] r[i]).0 != l by {
                if i < w.len() {
                    assert(r[i] == w[i]);
                }
            }
            assert forall|k: int| 0 <= k < b.len() && (#[trigger] b[k]).0 != l implies r.contains(b[k]) by {
                if k < b.len() - 1 {
                    assert(p[k] == b[k]);
                    assert(w.contains(b[k]));
                    let q = choose|q: int| 0 <= q < w.len() && w[q] == b[k];
                    assert(r[q] == b[k]);
                } else {
                    assert(r[w.len() as int] == b[k]);
                }
            }
            if labels_unique(b) {
                assert forall|i: int, j: int| #![trigger r[i], r[j]] 0 <= i < j < r.len() implies r[i].0 != r[j].0 by {
                    if j < w.len() {
                        assert(r[i] == w[i] && r[j] == w[j]);
                    } else {
                        assert(r[i] == w[i]);
                        assert(p.contains(w[i]));
                        let k = choose|k: int| 0 <= k < p.len() && p[k] == w[i];
                        assert(b[k] == w[i]);
                        assert(r[j] == b[b.len() - 1]);
                    }
                }
            }
        }
    }
}

/// The boxes are in order: 256 of them, each lens in the box that its
/// label hashes to, and no label twice in a box.
pub open spec fn boxes_ok(bx: Seq<Seq<(Seq<u8>, u8)>>) -> bool {
    &&& bx.len() == 256
    &&& forall|b: int, i: int| 0 <= b < 256 && 0 <= i < bx[b].len() ==> hash_from(0, (#[trigger] bx[b][i]).0) == b
    &&& forall|b: int| 0 <= b < 256 ==> labels_unique(#[trigger] bx[b])
}

/// What a step does: a lens `label=f` ends up in the box that its label
/// hashes to, in the place of the lens of that label where there was one
/// (every other lens keeps its place); `label-` leaves no lens of that label
/// in its box and keeps every other lens there; no other box changes; and
/// the boxes stay in order.
pub proof fn lemma_step_effect(bx: Seq<Seq<(Seq<u8>, u8)>>, st: StepV)
    requires
        boxes_ok(bx),
    ensures
        boxes_ok(apply_step(bx, st)),
        match st {
            StepV::Assign(l, f) => {
                let h = hash_from(0, l) as int;
                let nb = apply_step(bx, st);
                &&& exists|i: int| 0 <= i < nb[h].len() && #[trigger] nb[h][i] == (l, f)
                &&& forall|k: int| 0 <= k < bx[h].len() && (#[trigger] bx[h][k]).0 != l ==> nb[h][k] == bx[h][k]
                &&& forall|b: int| 0 <= b < 256 && b != h ==> #[trigger] nb[b] == bx[b]
            },
            StepV::Remove(l) => {
                let h = hash_from(0, l) as int;
                let nb = apply_step(bx, st);
                &&& forall|i: int| 0 <= i < nb[h].len() ==> (#[trigger] nb[h][i]).0 != l
                &&& forall|k: int| 0 <= k < bx[h].len() && (#[trigger] bx[h][k]).0 != l ==> nb[h].contains(bx[h][k])
                &&& forall|b: int| 0 <= b < 256 && b != h ==> #[trigger] nb[b] == bx[b]
            },
        },
{
    let nb = apply_step(bx, st);
    match st {
        StepV::Assign(l, f) => {
            let h = hash_from(0, l) as int;
            let old_b = bx[h];
            let i = first_with(old_b, l, 0);
            lemma_first_with(old_b, l, 0);
            lemma_first_with_found(old_b, l, 0);
            assert(labels_unique(old_b));
            if i < old_b.len() {
                let new_b = old_b.update(i, (old_b[i].0, f));
                assert(nb[h] == new_b);
                assert(new_b[i] == (l, f));
                assert forall|k: int| 0 <= k < old_b.len() && (#[trigger] old_b[k]).0 != l implies new_b[k] == old_b[k] by {}
                assert forall|a: int, c: int| #![trigger new_b[a], new_b[c]] 0 <= a < c < new_b.len() implies new_b[a].0 != new_b[c].0 by {
                    assert(new_b[a].0 == old_b[a].0 && new_b[c].0 == old_b[c].0);
                    assert(old_b[a].0 != old_b[c].0);
                }
                assert forall|b: int, j: int| 0 <= b < 256 && 0 <= j < nb[b].len() implies hash_from(0, (#[trigger] nb[b][j]).0) == b by {
                    if b == h {
                        assert(nb[b][j].0 == old_b[j].0);
                        assert(hash_from(0, bx[b][j].0) == b);
                    } else {
                        assert(hash_from(0, bx[b][j].0) == b);
                    }
                }
            } else {
                let new_b = old_b.push((l, f));
                assert(nb[h] == new_b);
                assert(new_b[old_b.len() as int] == (l, f));
                assert forall|k: int| 0 <= k < old_b.len() && (#[trigger] old_b[k]).0 != l implies new_b[k] == old_b[k] by {}
                assert forall|a: int, c: int| #![trigger new_b[a], new_b[c]] 0 <= a < c < new_b.len() implies new_b[a].0 != new_b[c].0 by {
                    assert(new_b[a] == old_b[a]);
                    if c < old_b.len() {
                        assert(new_b[c] == old_b[c]);
                        assert(old_b[a].0 != old_b[c].0);
                    } else {
                        assert(old_b[a].0 != l);
                    }
                }
                assert forall|b: int, j: int| 0 <= b < 256 && 0 <= j < nb[b].len() implies hash_from(0, (#[trigger] nb[b][j]).0) == b by {
                    if b == h {
                        if j < old_b.len() {
                            assert(nb[b][j] == old_b[j]);
                            assert(hash_from(0, bx[b][j].0) == b);
                        }
                    } else {
                        assert(hash_from(0, bx[b][j].0) == b);
                    }
                }
            }
            assert forall|b: int| 0 <= b < 256 implies labels_unique(#[trigger] nb[b]) by {
                if b != h {
                    assert(nb[b] == bx[b]);
                }
            }
        },
        StepV::Remove(l) => {
            let h = hash_from(0, l) as int;
            let old_b = bx[h];
            let new_b = without_label(old_b, l);
            lemma_without_label(old_b, l);
            assert(labels_unique(old_b));
            assert(nb[h] == new_b);
            assert forall|b: int, j: int| 0 <= b < 256 && 0 <= j < nb[b].len() implies hash_from(0, (#[trigger] nb[b][j]).0) == b by {
                if b == h {
                    assert(old_b.contains(new_b[j]));
                    let k = choose|k: int| 0 <= k < old_b.len() && old_b[k] == new_b[j];
                    assert(hash_from(0, bx[b][k].0) == b);
                } else {
                    assert(hash_from(0, bx[b][j].0) == b);
                }
            }
            assert forall|b: int| 0 <= b < 256 implies labels_unique(#[trigger] nb[b]) by {
                if b != h {
                    assert(nb[b] == bx[b]);
                }
            }
        },
    }
}

/// The boxes stay in order through every step.
pub proof fn lemma_boxes_ok(steps: Seq<StepV>, n: int)
    requires
        0 <= n <= steps.len(),
    ensures
        boxes_ok(boxes_after(steps, n)),
    decreases n,
{
    if n == 0 {
        assert(boxes_ok(boxes_after(steps, 0)));
    } else {
        lemma_boxes_ok(steps, n - 1);
        lemma_step_effect(boxes_after(steps, n - 1), steps[n - 1]);
    }
}

fn copy_bytes(v: &Vec<u8>) -> (res: Vec<u8>)
    ensures
        res@ == v@,
{
    copy_range(v.as_slice(), 0, v.len())
}

/// Applies one step to the boxes (see `apply_step`).
fn run_step(boxes: &mut Vec<Vec<(Vec<u8>, u8)>>, step: &Step)
    requires
        old(boxes)@.len() == 256,
    ensures
        final(boxes)@.len() == 256,
        boxes_view(final(boxes)@) == apply_step(boxes_view(old(boxes)@), step_view(*step)),
{
    let ghost bx = boxes_view(boxes@);
    match step {
        Step::Assign(label, fl) => {
            let idx = hash(label);
            let ghost bucket = bx[idx as int];
            assert(bucket_view(boxes@[idx as int]@) == bucket);
            let mut i: usize = 0;
            while i < boxes[idx].len() && !same_bytes(boxes[idx][i].0.as_slice(), label.as_slice())
                invariant
                    idx < 256,
                    boxes@.len() == 256,
                    i <= boxes@[idx as int]@.len(),
                    bucket == bucket_view(boxes@[idx as int]@),
                    first_with(bucket, label@, 0) == first_with(bucket, label@, i as int),
                decreases boxes@[idx as int]@.len() - i,
            {
                i += 1;
            }
            if i < boxes[idx].len() {
                boxes[idx][i].1 = *fl;
                proof {
                    assert(bucket_view(boxes@[idx as int]@) =~= bucket.update(i as int, (bucket[i as int].0, *fl)));
                    assert(boxes_view(boxes@) =~= bx.update(idx as int, bucket.update(i as int, (bucket[i as int].0, *fl))));
                }
            } else {
                let l = copy_bytes(label);
                boxes[idx].push((l, *fl));
                proof {
                    assert(bucket_view(boxes@[idx as int]@) =~= bucket.push((label@, *fl)));
                    assert(boxes_view(boxes@) =~= bx.update(idx as int, bucket.push((label@, *fl))));
                }
            }
        },
        Step::Remove(label) => {
            let idx = hash(label);
            let ghost bucket = bx[idx as int];
            assert(bucket_view(boxes@[idx as int]@) == bucket);
            let mut kept: Vec<(Vec<u8>, u8)> = Vec::new();
            let mut i: usize = 0;
            while i < boxes[idx].len()
                invariant
                    idx < 256,
                    boxes@.len() == 256,
                    boxes_view(boxes@) == bx,
                    i <= boxes@[idx as int]@.len(),
                    bucket == bucket_view(boxes@[idx as int]@),
                    bucket_view(kept@) == without_label(bucket.take(i as int), label@),
                decreases boxes@[idx as int]@.len() - i,
            {
                assert(bucket.take(i + 1).drop_last() =~= bucket.take(i as int));
                if !same_bytes(boxes[idx][i].0.as_slice(), label.as_slice()) {
                    let l = copy_bytes(&boxes[idx][i].0);
                    let ghost before = bucket_view(kept@);
                    kept.push((l, boxes[idx][i].1));
                    assert(bucket_view(kept@) =~= before.push(bucket[i as int]));
                }
                i += 1;
            }
            assert(bucket.take(i as int) =~= bucket);
            boxes.set(idx, kept);
            assert(boxes_view(boxes@) =~= bx.update(idx as int, without_label(bucket, label@)));
        },
    }
}

/// The focusing power of all lenses once the steps are done.
pub fn part2(input: &[Step]) -> (res: usize)
    requires
        forall|i: int| 0 <= i < input@.len() ==> (#[trigger] input@[i]).hash_ok(),
        input@.len() * 256 <= usize::MAX,
        boxes_power(boxes_after(input@.map_values(|st: Step| step_view(st)), input@.len() as int), 256) <= usize::MAX,
    ensures
        res == boxes_power(boxes_after(input@.map_values(|st: Step| step_view(st)), input@.len() as int), 256),
{
    let ghost sv = input@.map_values(|st: Step| step_view(st));
    let mut boxes: Vec<Vec<(Vec<u8>, u8)>> = Vec::new();
    while boxes.len() < 256
        invariant
            boxes@.len() <= 256,
            forall|b: int| 0 <= b < boxes@.len() ==> (#[trigger] boxes@[b])@.len() == 0,
        decreases 256 - boxes@.len(),
    {
        boxes.push(Vec::new());
    }
    assert forall|b: int| 0 <= b < 256 implies bucket_view(boxes@[b]@) =~= Seq::<(Seq<u8>, u8)>::empty() by {}
    assert(boxes_view(boxes@) =~= boxes_after(sv, 0));
    let mut k: usize = 0;
    while k < input.len()
        invariant
            k <= input@.len(),
            sv == input@.map_values(|st: Step| step_view(st)),
            boxes@.len() == 256,
            boxes_view(boxes@) == boxes_after(sv, k as int),
        decreases input@.len() - k,
    {
        run_step(&mut boxes, &input[k]);
        k += 1;
    }
    let ghost bx = boxes_view(boxes@);
    proof {
        lemma_boxes_power_nonneg(bx, 0);
        lemma_boxes_power_mono(bx, 0, 256);
        lemma_boxes_after(sv, input@.len() as int);
    }
    let mut ret: usize = 0;
    let mut b: usize = 0;
    while b < 256
        invariant
            b <= 256,
            boxes@.len() == 256,
            bx == boxes_view(boxes@),
            boxes_power(bx, 256) <= usize::MAX,
            input@.len() * 256 <= usize::MAX,
            forall|c: int| 0 <= c < 256 ==> (#[trigger] bx[c]).len() <= input@.len(),
            ret == boxes_power(bx, b as int),
        decreases 256 - b,
    {
        let ghost bucket = bx[b as int];
        assert(bucket == bucket_view(boxes@[b as int]@));
        proof {
            lemma_boxes_power_mono(bx, b + 1, 256);
            lemma_boxes_power_nonneg(bx, b as int);
            lemma_bucket_power_nonneg(b as int, bucket, 0);
        }
        let mut i: usize = 0;
        while i < boxes[b].len()
            invariant
                b < 256,
                boxes@.len() == 256,
                bucket == bucket_view(boxes@[b as int]@),
                i <= bucket.len(),
                bucket.len() <= input@.len(),
                input@.len() * 256 <= usize::MAX,
                0 <= boxes_power(bx, b as int),
                boxes_power(bx, b as int) + bucket_power(b as int, bucket, bucket.len() as int) <= usize::MAX,
                ret == boxes_power(bx, b as int) + bucket_power(b as int, bucket, i as int),
            decreases bucket.len() - i,
        {
            proof {
                lemma_bucket_power_mono(b as int, bucket, i + 1, bucket.len() as int);
                lemma_bucket_power_nonneg(b as int, bucket, i as int);
            }
            let f = boxes[b][i].1 as usize;
            assert(bucket[i as int].1 == f);
            assert((b + 1) * (i + 1) <= 256 * input@.len()) by (nonlinear_arith)
                requires
                    b + 1 <= 256,
                    i + 1 <= input@.len();
            ret = ret + (b + 1) * (i + 1) * f;
            i += 1;
        }
        b += 1;
    }
    ret
}

} // verus!
