//! Pulse propagation: flip-flops and conjunctions passing pulses along a
//! network of modules, pressed a thousand times or until a signal appears.
use vstd::prelude::*;
use petgraph::graph::NodeIndex;
use petgraph::{Direction, Graph};
use crate::day19::{copy_range, is_lower, lemma_lower_run, lower_end, lower_run};
use crate::day8::{common_multiple, lcm_i64, lcm_spec, lemma_lcm_divides, lemma_lcm_multiple, lemma_lcm_nonneg, lemma_mod_trans};
use crate::day9::{at, byte_is};
use crate::text::{matches_at, starts_with_at, ParseError};

verus! {

/// The kind of a module.
#[derive(Debug, Clone, Copy, PartialEq, Eq, Hash, Structural)]
pub enum ModuleType {
    FlipFlop,
    Conjunction,
    Plain,
}

/// A module of the configuration: its name, kind and the modules it sends
/// its pulses to.
#[derive(Debug, Clone, PartialEq, Eq)]
pub struct Module {
    pub name: Vec<u8>,
    pub ty: ModuleType,
    pub succs: Vec<Vec<u8>>,
}

/// A module as its contracts see it.
pub open spec fn module_view(m: Module) -> (Seq<u8>, ModuleType, Seq<Seq<u8>>) {
    (m.name@, m.ty, m.succs@.map_values(|s: Vec<u8>| s@))
}

/// A name at `i`: a run of `[a-z]`, at least one.
pub open spec fn p_ident(s: Seq<u8>, i: int) -> Option<(Seq<u8>, int)> {
    if 0 <= i && lower_run(s, i) > 0 { Some((s.subrange(i, i + lower_run(s, i)), i + lower_run(s, i))) } else { None }
}

/// More names from `j` on, each after `, `.
pub open spec fn p_more(s: Seq<u8>, j: int) -> (Seq<Seq<u8>>, int)
    decreases s.len() - j,
{
    if 0 <= j && matches_at(s, j, seq![44u8, 32u8]) && lower_run(s, j + 2) > 0 {
        let e = j + 2 + lower_run(s, j + 2);
        proof {
            lemma_lower_run(s, j + 2);
        }
        let r = p_more(s, e);
        (seq![s.subrange(j + 2, e)] + r.0, r.1)
    } else {
        (Seq::empty(), j)
    }
}

/// A list of names at `i`, separated by `, `, possibly none.
pub open spec fn p_list(s: Seq<u8>, i: int) -> (Seq<Seq<u8>>, int) {
    match p_ident(s, i) {
        Some((n, j)) => {
            let r = p_more(s, j);
            (seq![n] + r.0, r.1)
        },
        None => (Seq::empty(), i),
    }
}

/// A module at `i`: `%` or `&` or neither, its name, ` -> `, the names it
/// sends to, then `\n` or the end.
pub open spec fn p_module(s: Seq<u8>, i: int) -> Option<((Seq<u8>, ModuleType, Seq<Seq<u8>>), int)> {
    let ty = if byte_is(s, i, 37u8) { ModuleType::FlipFlop } else if byte_is(s, i, 38u8) { ModuleType::Conjunction } else { ModuleType::Plain };
    let i0 = if ty == ModuleType::Plain { i } else { i + 1 };
    match p_ident(s, i0) {
        Some((name, i1)) => if matches_at(s, i1, seq![32u8, 45u8, 62u8, 32u8]) {
            let (succs, i2) = p_list(s, i1 + 4);
            if byte_is(s, i2, 10u8) {
                Some(((name, ty, succs), i2 + 1))
            } else if i2 == s.len() {
                Some(((name, ty, succs), i2))
            } else {
                None
            }
        } else {
            None
        },
        None => None,
    }
}

proof fn lemma_p_more(s: Seq<u8>, j: int)
    requires
        0 <= j <= s.len(),
    ensures
        j <= p_more(s, j).1 <= s.len(),
    decreases s.len() - j,
{
    if matches_at(s, j, seq![44u8, 32u8]) && lower_run(s, j + 2) > 0 {
        lemma_lower_run(s, j + 2);
        lemma_p_more(s, j + 2 + lower_run(s, j + 2));
    }
}

proof fn lemma_p_module(s: Seq<u8>, i: int)
    requires
        0 <= i <= s.len(),
    ensures
        p_module(s, i) matches Some((m, j)) ==> i < j <= s.len(),
{
    let ty = if byte_is(s, i, 37u8) { ModuleType::FlipFlop } else if byte_is(s, i, 38u8) { ModuleType::Conjunction } else { ModuleType::Plain };
    let i0 = if ty == ModuleType::Plain { i } else { i + 1 };
    lemma_lower_run(s, i0);
    if let Some((name, i1)) = p_ident(s, i0) {
        if matches_at(s, i1, seq![32u8, 45u8, 62u8, 32u8]) {
            lemma_lower_run(s, i1 + 4);
            if let Some((n, j)) = p_ident(s, i1 + 4) {
                lemma_p_more(s, j);
            }
        }
    }
}

/// The modules from `i` on, one after the other, and where they end.
pub open spec fn p_modules(s: Seq<u8>, i: int) -> (Seq<(Seq<u8>, ModuleType, Seq<Seq<u8>>)>, int)
    decreases s.len() - i,
{
    match p_module(s, i) {
        Some((m, j)) => if i < j <= s.len() {
            let r = p_modules(s, j);
            (seq![m] + r.0, r.1)
        } else {
            (Seq::empty(), i)
        },
        None => (Seq::empty(), i),
    }
}

/// The configuration: at least one module, and nothing else.
pub open spec fn spec_conf(s: Seq<u8>) -> Option<Seq<(Seq<u8>, ModuleType, Seq<Seq<u8>>)>> {
    let r = p_modules(s, 0);
    if r.0.len() >= 1 && r.1 == s.len() { Some(r.0) } else { None }
}

#[verifier::loop_isolation(false)]
fn read_list(s: &[u8], i: usize) -> (res: (Vec<Vec<u8>>, usize))
    requires
        i <= s.len(),
    ensures
        p_list(s@, i as int) == (res.0@.map_values(|v: Vec<u8>| v@), res.1 as int),
{
    let mut out: Vec<Vec<u8>> = Vec::new();
    let e = lower_end(s, i);
    if e == i {
        assert(out@.map_values(|v: Vec<u8>| v@) =~= Seq::<Seq<u8>>::empty());
        return (out, i);
    }
    out.push(copy_range(s, i, e));
    let mut j = e;
    let sep: Vec<u8> = vec![44u8, 32u8];
    assert(sep@ =~= seq![44u8, 32u8]);
    let ghost total = p_list(s@, i as int);
    proof {
        lemma_p_more(s@, j as int);
        assert(total == (out@.map_values(|v: Vec<u8>| v@) + p_more(s@, j as int).0, p_more(s@, j as int).1));
    }
    loop
        invariant
            i < j <= s.len(),
            sep@ == seq![44u8, 32u8],
            total == p_list(s@, i as int),
            total == (out@.map_values(|v: Vec<u8>| v@) + p_more(s@, j as int).0, p_more(s@, j as int).1),
        decreases s.len() - j,
    {
        if !starts_with_at(s, j, sep.as_slice()) {
            break;
        }
        let e2 = lower_end(s, j + 2);
        if e2 == j + 2 {
            break;
        }
        let ghost before = out@.map_values(|v: Vec<u8>| v@);
        let w = copy_range(s, j + 2, e2);
        out.push(w);
        proof {
            lemma_p_more(s@, e2 as int);
            assert(out@.map_values(|v: Vec<u8>| v@) =~= before.push(s@.subrange(j + 2, e2 as int)));
            let r = p_more(s@, e2 as int);
            assert(before + (seq![s@.subrange(j + 2, e2 as int)] + r.0) =~= out@.map_values(|v: Vec<u8>| v@) + r.0);
        }
        j = e2;
    }
    assert(out@.map_values(|v: Vec<u8>| v@) + Seq::<Seq<u8>>::empty() =~= out@.map_values(|v: Vec<u8>| v@));
    (out, j)
}

fn read_module(s: &[u8], i: usize) -> (res: Option<(Module, usize)>)
    requires
        i <= s.len(),
    ensures
        match p_module(s@, i as int) {
            Some((m, j)) => res matches Some((m2, k)) && module_view(m2) == m && k as int == j,
            None => res is None,
        },
{
    let ty = if at(s, i, 37u8) {
        ModuleType::FlipFlop
    } else if at(s, i, 38u8) {
        ModuleType::Conjunction
    } else {
        ModuleType::Plain
    };
    let i0 = if ty == ModuleType::Plain { i } else { i + 1 };
    let i1 = lower_end(s, i0);
    if i1 == i0 {
        return None;
    }
    let name = copy_range(s, i0, i1);
    let arrow: Vec<u8> = vec![32u8, 45u8, 62u8, 32u8];
    assert(arrow@ =~= seq![32u8, 45u8, 62u8, 32u8]);
    if !starts_with_at(s, i1, arrow.as_slice()) {
        return None;
    }
    let (succs, i2) = read_list(s, i1 + 4);
    proof {
        lemma_lower_run(s@, i1 + 4);
        if let Some((n, j)) = p_ident(s@, i1 + 4) {
            lemma_p_more(s@, j);
        }
    }
    if at(s, i2, 10u8) {
        Some((Module { name, ty, succs }, i2 + 1))
    } else if i2 == s.len() {
        Some((Module { name, ty, succs }, i2))
    } else {
        None
    }
}

/// Reads the configuration (see `spec_conf`).
#[verifier::loop_isolation(false)]
pub fn input_gen(input: &[u8]) -> (res: Result<Vec<Module>, ParseError>)
    ensures
        match res {
            Ok(v) => spec_conf(input@) == Some(v@.map_values(|m: Module| module_view(m))),
            Err(e) => e == ParseError::Syntax && spec_conf(input@) is None,
        },
{
    let mut out: Vec<Module> = Vec::new();
    let mut i: usize = 0;
    let ghost total = p_modules(input@, 0);
    loop
        invariant
            i <= input@.len(),
            total == p_modules(input@, 0),
            (out@.map_values(|m: Module| module_view(m)) + p_modules(input@, i as int).0, p_modules(input@, i as int).1) == total,
        decreases input@.len() - i,
    {
        proof {
            lemma_p_module(input@, i as int);
        }
        match read_module(input, i) {
            Some((m, j)) => {
                let ghost before = out@.map_values(|m: Module| module_view(m));
                let ghost r = p_modules(input@, j as int);
                let ghost mv = module_view(m);
                out.push(m);
                assert(out@.map_values(|m: Module| module_view(m)) =~= before.push(mv));
                assert(before + (seq![mv] + r.0) =~= out@.map_values(|m: Module| module_view(m)) + r.0);
                i = j;
            },
            None => {
                assert(out@.map_values(|m: Module| module_view(m)) + Seq::<(Seq<u8>, ModuleType, Seq<Seq<u8>>)>::empty()
                    =~= out@.map_values(|m: Module| module_view(m)));
                break;
            },
        }
    }
    if out.len() == 0 || i != input.len() {
        return Err(ParseError::Syntax);
    }
    Ok(out)
}


/// The state of a module in the network: its name, kind, and the memory
/// its pulses depend on (a flip-flop's state in its first place, a
/// conjunction's memory of each input).
#[derive(Debug, Clone, PartialEq, Eq)]
pub struct ModuleState {
    pub name: Vec<u8>,
    pub ty: ModuleType,
    pub state: Vec<bool>,
}

/// A module state as the contracts see it.
pub open spec fn state_view(m: ModuleState) -> (Seq<u8>, ModuleType, Seq<bool>) {
    (m.name@, m.ty, m.state@)
}

impl ModuleState {
    /// A module state with empty memory.
    pub fn new(name: Vec<u8>, ty: ModuleType) -> (res: ModuleState)
        ensures
            state_view(res) == (name@, ty, Seq::<bool>::empty()),
    {
        ModuleState { name, ty, state: Vec::new() }
    }
}

/// The modules of a network, in the order they were added.
pub uninterp spec fn mg_nodes(g: Graph<ModuleState, ()>) -> Seq<(Seq<u8>, ModuleType, Seq<bool>)>;

/// The wires of a network, from sender to receiver, in the order they
/// were added.
pub uninterp spec fn mg_edges(g: Graph<ModuleState, ()>) -> Seq<(int, int)>;

/// `Graph::new`: a network without modules.
#[verifier::external_body]
fn mg_new() -> (g: Graph<ModuleState, ()>)
    ensures
        mg_nodes(g) == Seq::<(Seq<u8>, ModuleType, Seq<bool>)>::empty(),
        mg_edges(g) == Seq::<(int, int)>::empty(),
{
    Graph::new()
}

/// `Graph::add_node`: appends the module and returns its index (it panics
/// only once the `u32` indices run out).
#[verifier::external_body]
fn mg_add_node(g: &mut Graph<ModuleState, ()>, m: ModuleState) -> (id: usize)
    requires
        mg_nodes(*old(g)).len() < u32::MAX,
    ensures
        id == mg_nodes(*old(g)).len(),
        mg_nodes(*final(g)) == mg_nodes(*old(g)).push(state_view(m)),
        mg_edges(*final(g)) == mg_edges(*old(g)),
{
    g.add_node(m).index()
}

/// `Graph::add_edge`: appends the wire from `a` to `b`.
#[verifier::external_body]
fn mg_add_edge(g: &mut Graph<ModuleState, ()>, a: usize, b: usize)
    requires
        a < mg_nodes(*old(g)).len(),
        b < mg_nodes(*old(g)).len(),
        mg_edges(*old(g)).len() < u32::MAX,
    ensures
        mg_nodes(*final(g)) == mg_nodes(*old(g)),
        mg_edges(*final(g)) == mg_edges(*old(g)).push((a as int, b as int)),
{
    g.add_edge(NodeIndex::new(a), NodeIndex::new(b), ());
}

/// The kind of module `i` (through `Index`).
#[verifier::external_body]
fn mg_ty(g: &Graph<ModuleState, ()>, i: usize) -> (res: ModuleType)
    requires
        i < mg_nodes(*g).len(),
    ensures
        res == mg_nodes(*g)[i as int].1,
{
    g[NodeIndex::new(i)].ty
}

/// A copy of the memory of module `i` (through `Index`).
#[verifier::external_body]
fn mg_bits(g: &Graph<ModuleState, ()>, i: usize) -> (res: Vec<bool>)
    requires
        i < mg_nodes(*g).len(),
    ensures
        res@ == mg_nodes(*g)[i as int].2,
{
    g[NodeIndex::new(i)].state.clone()
}

/// Replaces the memory of module `i` (through `IndexMut`).
#[verifier::external_body]
fn mg_set_bits(g: &mut Graph<ModuleState, ()>, i: usize, bits: Vec<bool>)
    requires
        i < mg_nodes(*old(g)).len(),
    ensures
        mg_nodes(*final(g)) == mg_nodes(*old(g)).update(i as int, (mg_nodes(*old(g))[i as int].0, mg_nodes(*old(g))[i as int].1, bits@)),
        mg_edges(*final(g)) == mg_edges(*old(g)),
{
    g[NodeIndex::new(i)].state = bits;
}

/// The receivers of the first `k` wires from `v`, the latest wire first.
pub open spec fn out_list(edges: Seq<(int, int)>, v: int, k: int) -> Seq<int>
    decreases k,
{
    if k <= 0 {
        Seq::empty()
    } else if edges[k - 1].0 == v {
        seq![edges[k - 1].1] + out_list(edges, v, k - 1)
    } else {
        out_list(edges, v, k - 1)
    }
}

/// The senders of the first `k` wires to `v`, the latest wire first.
pub open spec fn in_list(edges: Seq<(int, int)>, v: int, k: int) -> Seq<int>
    decreases k,
{
    if k <= 0 {
        Seq::empty()
    } else if edges[k - 1].1 == v {
        seq![edges[k - 1].0] + in_list(edges, v, k - 1)
    } else {
        in_list(edges, v, k - 1)
    }
}

/// `Graph::neighbors_directed` towards the receivers of module `i`: they
/// come the latest wire first.
#[verifier::external_body]
fn mg_succs(g: &Graph<ModuleState, ()>, i: usize) -> (res: Vec<usize>)
    requires
        i < mg_nodes(*g).len(),
    ensures
        res@.map_values(|u: usize| u as int) == out_list(mg_edges(*g), i as int, mg_edges(*g).len() as int),
{
    g.neighbors_directed(NodeIndex::new(i), Direction::Outgoing).map(|n: NodeIndex| n.index()).collect()
}

/// `Graph::neighbors_directed` towards the senders of module `i`: they
/// come the latest wire first.
#[verifier::external_body]
fn mg_preds(g: &Graph<ModuleState, ()>, i: usize) -> (res: Vec<usize>)
    requires
        i < mg_nodes(*g).len(),
    ensures
        res@.map_values(|u: usize| u as int) == in_list(mg_edges(*g), i as int, mg_edges(*g).len() as int),
{
    g.neighbors_directed(NodeIndex::new(i), Direction::Incoming).map(|n: NodeIndex| n.index()).collect()
}

/// `Clone` on a network: the same modules and wires.
#[verifier::external_body]
fn mg_clone(g: &Graph<ModuleState, ()>) -> (res: Graph<ModuleState, ()>)
    ensures
        mg_nodes(res) == mg_nodes(*g) && mg_edges(res) == mg_edges(*g),
{
    g.clone()
}


/// The index that the table of names gives `k`: the latest entry for it.
pub open spec fn lookup(idx: Seq<(Seq<u8>, int)>, k: Seq<u8>) -> Option<int>
    decreases idx.len(),
{
    if idx.len() == 0 {
        None
    } else if idx.last().0 == k {
        Some(idx.last().1)
    } else {
        lookup(idx.drop_last(), k)
    }
}

/// The modules after the first `k` modules of the configuration have been
/// added, each with empty memory, and the table of their names.
pub open spec fn add_modules(mods: Seq<(Seq<u8>, ModuleType, Seq<Seq<u8>>)>, k: int)
    -> (Seq<(Seq<u8>, ModuleType, Seq<bool>)>, Seq<(Seq<u8>, int)>)
    decreases k,
{
    if k <= 0 {
        (Seq::empty(), Seq::empty())
    } else {
        let (n, idx) = add_modules(mods, k - 1);
        (n.push((mods[k - 1].0, mods[k - 1].1, Seq::empty())), idx.push((mods[k - 1].0, n.len() as int)))
    }
}

/// The network being built: modules, wires and the table of names.
pub struct Build {
    pub nodes: Seq<(Seq<u8>, ModuleType, Seq<bool>)>,
    pub edges: Seq<(int, int)>,
    pub idx: Seq<(Seq<u8>, int)>,
}

/// Wires module `from` to the module named `s`, adding a plain module of
/// that name if there is none, and gives the receiver one more place of
/// memory.
pub open spec fn link(b: Build, from: int, s: Seq<u8>) -> Build {
    let (nodes1, idx1, to) = match lookup(b.idx, s) {
        Some(k) => (b.nodes, b.idx, k),
        None => (b.nodes.push((s, ModuleType::Plain, Seq::empty())), b.idx.push((s, b.nodes.len() as int)), b.nodes.len() as int),
    };
    Build {
        nodes: nodes1.update(to, (nodes1[to].0, nodes1[to].1, nodes1[to].2.push(false))),
        edges: b.edges.push((from, to)),
        idx: idx1,
    }
}

/// `link` for the first `j` receivers.
pub open spec fn link_succs(b: Build, from: int, succs: Seq<Seq<u8>>, j: int) -> Build
    decreases j,
{
    if j <= 0 { b } else { link(link_succs(b, from, succs, j - 1), from, succs[j - 1]) }
}

/// The wires of the first `k` modules added.
pub open spec fn link_modules(b: Build, mods: Seq<(Seq<u8>, ModuleType, Seq<Seq<u8>>)>, k: int) -> Build
    decreases k,
{
    if k <= 0 {
        b
    } else {
        let prev = link_modules(b, mods, k - 1);
        let from = match lookup(prev.idx, mods[k - 1].0) { Some(i) => i, None => 0 };
        link_succs(prev, from, mods[k - 1].2, mods[k - 1].2.len() as int)
    }
}

/// The network of a configuration: its modules in order, then the plain
/// modules named only as receivers, in the order they are first named.
pub open spec fn network(mods: Seq<(Seq<u8>, ModuleType, Seq<Seq<u8>>)>) -> Build {
    let (n, idx) = add_modules(mods, mods.len() as int);
    link_modules(Build { nodes: n, edges: Seq::empty(), idx }, mods, mods.len() as int)
}

/// The number of names in the first `k` modules of a configuration.
pub open spec fn names_in(mods: Seq<(Seq<u8>, ModuleType, Seq<Seq<u8>>)>, k: int) -> int
    decreases k,
{
    if k <= 0 { 0 } else { names_in(mods, k - 1) + 1 + mods[k - 1].2.len() }
}

pub open spec fn idx_view(idx: Seq<(Vec<u8>, usize)>) -> Seq<(Seq<u8>, int)> {
    idx.map_values(|e: (Vec<u8>, usize)| (e.0@, e.1 as int))
}

fn find_index(idx: &Vec<(Vec<u8>, usize)>, k: &Vec<u8>) -> (res: Option<usize>)
    ensures
        match lookup(idx_view(idx@), k@) {
            Some(i) => res matches Some(j) && j as int == i,
            None => res is None,
        },
{
    let mut i = idx.len();
    assert(idx@.take(i as int) =~= idx@);
    while i > 0
        invariant
            i <= idx@.len(),
            lookup(idx_view(idx@), k@) == lookup(idx_view(idx@.take(i as int)), k@),
        decreases i,
    {
        assert(idx_view(idx@.take(i as int)).drop_last() =~= idx_view(idx@.take(i - 1)));
        if crate::text::same_bytes(idx[i - 1].0.as_slice(), k.as_slice()) {
            return Some(idx[i - 1].1);
        }
        i -= 1;
    }
    None
}


fn copy_name(v: &Vec<u8>) -> (res: Vec<u8>)
    ensures
        res@ == v@,
{
    copy_range(v.as_slice(), 0, v.len())
}

pub open spec fn mods_view(input: Seq<Module>) -> Seq<(Seq<u8>, ModuleType, Seq<Seq<u8>>)> {
    input.map_values(|m: Module| module_view(m))
}

/// The table of names points at modules.
pub open spec fn idx_ok(idx: Seq<(Seq<u8>, int)>, n: int) -> bool {
    forall|i: int| 0 <= i < idx.len() ==> 0 <= (#[trigger] idx[i]).1 < n
}

proof fn lemma_lookup(idx: Seq<(Seq<u8>, int)>, k: Seq<u8>, n: int)
    requires
        idx_ok(idx, n),
    ensures
        lookup(idx, k) matches Some(v) ==> 0 <= v < n,
    decreases idx.len(),
{
    if idx.len() > 0 && idx.last().0 != k {
        assert(idx_ok(idx.drop_last(), n));
        lemma_lookup(idx.drop_last(), k, n);
    }
}

proof fn lemma_add_modules(mods: Seq<(Seq<u8>, ModuleType, Seq<Seq<u8>>)>, k: int)
    requires
        0 <= k <= mods.len(),
    ensures
        add_modules(mods, k).0.len() == k,
        idx_ok(add_modules(mods, k).1, k),
        forall|i: int| 0 <= i < k ==> lookup(add_modules(mods, k).1, #[trigger] mods[i].0) is Some,
    decreases k,
{
    if k > 0 {
        lemma_add_modules(mods, k - 1);
        let (n, idx) = add_modules(mods, k - 1);
        assert forall|i: int| 0 <= i < k implies lookup(add_modules(mods, k).1, #[trigger] mods[i].0) is Some by {
            if mods[i].0 != mods[k - 1].0 {
                assert(add_modules(mods, k).1.drop_last() == idx);
            }
        }
    }
}

/// Builds the network of a configuration (see `network`), with the table
/// of names in place of a hash map.
pub fn make_graph(input: &[Module]) -> (res: (Graph<ModuleState, ()>, Vec<(Vec<u8>, usize)>))
    requires
        3 * names_in(mods_view(input@), input@.len() as int) < u32::MAX,
    ensures
        mg_nodes(res.0) == network(mods_view(input@)).nodes,
        mg_edges(res.0) == network(mods_view(input@)).edges,
        idx_view(res.1@) == network(mods_view(input@)).idx,
        edges_ok(mg_edges(res.0), mg_nodes(res.0).len() as int),
        idx_ok(idx_view(res.1@), mg_nodes(res.0).len() as int),
{
    let ghost mods = mods_view(input@);
    let mut g = mg_new();
    let mut idx: Vec<(Vec<u8>, usize)> = Vec::new();
    let mut k: usize = 0;
    while k < input.len()
        invariant
            mods == mods_view(input@),
            k <= input@.len(),
            3 * names_in(mods, input@.len() as int) < u32::MAX,
            mg_nodes(g) == add_modules(mods, k as int).0,
            mg_edges(g) == Seq::<(int, int)>::empty(),
            idx_view(idx@) == add_modules(mods, k as int).1,
        decreases input@.len() - k,
    {
        proof {
            lemma_add_modules(mods, k as int);
            lemma_names_mono(mods, k + 1, input@.len() as int);
            lemma_names_len(mods, k + 1);
        }
        let m = &input[k];
        let id = mg_add_node(&mut g, ModuleState::new(copy_name(&m.name), m.ty));
        let ghost before = idx_view(idx@);
        idx.push((copy_name(&m.name), id));
        assert(idx_view(idx@) =~= before.push((mods[k as int].0, id as int)));
        k += 1;
    }
    proof {
        lemma_add_modules(mods, input@.len() as int);
        lemma_names_len(mods, input@.len() as int);
    }
    let ghost b0 = Build { nodes: mg_nodes(g), edges: mg_edges(g), idx: idx_view(idx@) };
    let mut k: usize = 0;
    while k < input.len()
        invariant
            mods == mods_view(input@),
            k <= input@.len(),
            3 * names_in(mods, input@.len() as int) < u32::MAX,
            b0 == (Build { nodes: add_modules(mods, mods.len() as int).0, edges: Seq::empty(), idx: add_modules(mods, mods.len() as int).1 }),
            link_modules(b0, mods, k as int) == (Build { nodes: mg_nodes(g), edges: mg_edges(g), idx: idx_view(idx@) }),
            idx_ok(idx_view(idx@), mg_nodes(g).len() as int),
            edges_ok(mg_edges(g), mg_nodes(g).len() as int),
            mg_nodes(g).len() + mg_edges(g).len() <= 2 * names_in(mods, k as int) + mods.len(),
            mods.len() <= names_in(mods, mods.len() as int),
            mg_nodes(g).len() >= mods.len(),
            forall|i: int| 0 <= i < mods.len() ==> lookup(idx_view(idx@), #[trigger] mods[i].0) is Some,
        decreases input@.len() - k,
    {
        proof {
            lemma_names_mono(mods, k + 1, input@.len() as int);
            assert(mods[k as int].0 == input@[k as int].name@);
        }
        let m = &input[k];
        let from = match find_index(&idx, &m.name) {
            Some(i) => i,
            None => {
                proof {
                    assert(false);
                }
                0
            },
        };
        proof {
            lemma_lookup(idx_view(idx@), m.name@, mg_nodes(g).len() as int);
        }
        let ghost prev = Build { nodes: mg_nodes(g), edges: mg_edges(g), idx: idx_view(idx@) };
        let mut j: usize = 0;
        while j < m.succs.len()
            invariant
                mods == mods_view(input@),
                k < input@.len(),
                m == input@[k as int],
                3 * names_in(mods, input@.len() as int) < u32::MAX,
                names_in(mods, k + 1) <= names_in(mods, input@.len() as int),
                names_in(mods, k + 1) == names_in(mods, k as int) + 1 + m.succs@.len(),
                from < mg_nodes(g).len(),
                j <= m.succs@.len(),
                link_succs(prev, from as int, mods[k as int].2, j as int) == (Build { nodes: mg_nodes(g), edges: mg_edges(g), idx: idx_view(idx@) }),
                idx_ok(idx_view(idx@), mg_nodes(g).len() as int),
                edges_ok(mg_edges(g), mg_nodes(g).len() as int),
                mg_nodes(g).len() + mg_edges(g).len() <= 2 * (names_in(mods, k as int) + j) + mods.len(),
                mods.len() <= names_in(mods, mods.len() as int),
                mg_nodes(g).len() >= mods.len(),
                forall|i: int| 0 <= i < mods.len() ==> lookup(idx_view(idx@), #[trigger] mods[i].0) is Some,
                mods[k as int].2 == m.succs@.map_values(|v: Vec<u8>| v@),
            decreases m.succs@.len() - j,
        {
            let sname = &m.succs[j];
            let ghost cur = Build { nodes: mg_nodes(g), edges: mg_edges(g), idx: idx_view(idx@) };
            proof {
                lemma_lookup(idx_view(idx@), sname@, mg_nodes(g).len() as int);
                assert(mods[k as int].2[j as int] == sname@);
            }
            let to = match find_index(&idx, sname) {
                Some(i) => i,
                None => {
                    let id = mg_add_node(&mut g, ModuleState::new(copy_name(sname), ModuleType::Plain));
                    let ghost before = idx_view(idx@);
                    idx.push((copy_name(sname), id));
                    assert(idx_view(idx@) =~= before.push((sname@, id as int)));
                    proof {
                        assert forall|i: int| 0 <= i < mods.len() implies lookup(idx_view(idx@), #[trigger] mods[i].0) is Some by {
                            if mods[i].0 != sname@ {
                                assert(idx_view(idx@).drop_last() == before);
                            }
                        }
                    }
                    id
                },
            };
            mg_add_edge(&mut g, from, to);
            let mut bits = mg_bits(&g, to);
            bits.push(false);
            mg_set_bits(&mut g, to, bits);
            proof {
                let nb = link(cur, from as int, sname@);
                assert(mg_nodes(g) =~= nb.nodes);
                assert(mg_edges(g) =~= nb.edges);
            }
            j += 1;
        }
        proof {
            assert(m.succs@.map_values(|v: Vec<u8>| v@).len() == m.succs@.len());
        }
        k += 1;
    }
    (g, idx)
}

proof fn lemma_names_mono(mods: Seq<(Seq<u8>, ModuleType, Seq<Seq<u8>>)>, a: int, b: int)
    requires
        0 <= a <= b,
    ensures
        names_in(mods, a) <= names_in(mods, b),
    decreases b,
{
    if a < b {
        lemma_names_mono(mods, a, b - 1);
    }
}

proof fn lemma_names_len(mods: Seq<(Seq<u8>, ModuleType, Seq<Seq<u8>>)>, k: int)
    requires
        k >= 0,
    ensures
        names_in(mods, k) >= k,
    decreases k,
{
    if k > 0 {
        lemma_names_len(mods, k - 1);
    }
}


/// All places of the memory hold `true`.
pub open spec fn all_high(st: Seq<bool>) -> bool {
    forall|i: int| 0 <= i < st.len() ==> #[trigger] st[i]
}

/// Whether a module of kind `ty` with memory `st` can take the pulse `v` on
/// its input `from` (where the module would index its memory out of
/// bounds, it cannot).
pub open spec fn can_recv(ty: ModuleType, st: Seq<bool>, from: int, v: bool) -> bool {
    match ty {
        ModuleType::FlipFlop => v || st.len() >= 1,
        ModuleType::Conjunction => 0 <= from < st.len(),
        ModuleType::Plain => true,
    }
}

/// The memory after a module takes the pulse `v` on input `from`, and the
/// pulse it sends on, if any: a flip-flop ignores high pulses and flips on
/// low ones, sending its new state; a conjunction remembers the pulse and
/// sends low exactly when it remembers high for all inputs; a plain module
/// passes the pulse on.
pub open spec fn recv(ty: ModuleType, st: Seq<bool>, from: int, v: bool) -> (Seq<bool>, Option<bool>) {
    match ty {
        ModuleType::FlipFlop => if v { (st, None) } else { (st.update(0, !st[0]), Some(!st[0])) },
        ModuleType::Conjunction => {
            let s2 = st.update(from, v);
            (s2, Some(!all_high(s2)))
        },
        ModuleType::Plain => (st, Some(v)),
    }
}

/// A flip-flop ignores a high pulse; two low pulses bring it back to the
/// state it had, and the two pulses it sends on are opposite, the first
/// being the flipped state.
pub proof fn lemma_flip_flop(st: Seq<bool>, from: int)
    requires
        st.len() >= 1,
    ensures
        recv(ModuleType::FlipFlop, st, from, true) == (st, None::<bool>),
        recv(ModuleType::FlipFlop, recv(ModuleType::FlipFlop, st, from, false).0, from, false).0 == st,
        recv(ModuleType::FlipFlop, st, from, false).1 == Some(!st[0]),
        recv(ModuleType::FlipFlop, recv(ModuleType::FlipFlop, st, from, false).0, from, false).1 == Some(st[0]),
{
    let s1 = recv(ModuleType::FlipFlop, st, from, false).0;
    assert(s1.update(0, !s1[0]) =~= st);
}

/// A conjunction remembers the last pulse of each input and sends low
/// exactly when the pulse it takes is high and it remembers high for every
/// other input; a low pulse always makes it send high.
pub proof fn lemma_conjunction(st: Seq<bool>, from: int, v: bool)
    requires
        0 <= from < st.len(),
    ensures
        recv(ModuleType::Conjunction, st, from, v).0[from] == v,
        forall|i: int| 0 <= i < st.len() && i != from ==> #[trigger] recv(ModuleType::Conjunction, st, from, v).0[i] == st[i],
        recv(ModuleType::Conjunction, st, from, v).1 == Some(!(v && forall|i: int| 0 <= i < st.len() && i != from ==> #[trigger] st[i])),
{
    let s2 = st.update(from, v);
    if v && forall|i: int| 0 <= i < st.len() && i != from ==> #[trigger] st[i] {
        assert(all_high(s2));
    } else if !v {
        assert(!s2[from]);
    } else {
        let i = choose|i: int| 0 <= i < st.len() && i != from && !st[i];
        assert(!s2[i]);
    }
}

impl ModuleState {
    /// Takes the pulse `v` on input `from` (see `recv`).
    pub fn recv_pulse(&mut self, from: usize, v: bool) -> (res: Option<bool>)
        requires
            can_recv(old(self).ty, old(self).state@, from as int, v),
        ensures
            (final(self).state@, res) == recv(old(self).ty, old(self).state@, from as int, v),
            final(self).ty == old(self).ty,
            final(self).name == old(self).name,
    {
        match self.ty {
            ModuleType::FlipFlop => {
                if v {
                    return None;
                }
                let b = !self.state[0];
                self.state.set(0, b);
                Some(self.state[0])
            },
            ModuleType::Conjunction => {
                self.state.set(from, v);
                let mut all = true;
                let mut i: usize = 0;
                while i < self.state.len()
                    invariant
                        i <= self.state@.len(),
                        all == forall|k: int| 0 <= k < i ==> #[trigger] self.state@[k],
                    decreases self.state@.len() - i,
                {
                    if !self.state[i] {
                        all = false;
                    }
                    i += 1;
                }
                Some(!all)
            },
            ModuleType::Plain => Some(v),
        }
    }
}

/// The first index of `x` in `l` (`l.len()` if none).
pub open spec fn index_of(l: Seq<int>, x: int) -> int
    decreases l.len(),
{
    if l.len() == 0 {
        0
    } else if l[0] == x {
        0
    } else {
        1 + index_of(l.drop_first(), x)
    }
}

/// The pulses that module `cur` sends with value `o`: one to each of its
/// receivers (the latest wire first), each marked with the place of `cur`
/// among the receiver's senders (the latest wire first).
pub open spec fn sends(edges: Seq<(int, int)>, cur: int, o: bool) -> Seq<(int, bool, int)> {
    let outs = out_list(edges, cur, edges.len() as int);
    Seq::new(outs.len(), |i: int| (outs[i], o, index_of(in_list(edges, outs[i], edges.len() as int), cur)))
}

/// The result of handling the queued pulses one after the other, each
/// sending its module's pulses to the back of the queue, with `low` and
/// `high` counting the pulses handled; it stops early when the module `end`
/// sends a high pulse. `None` when `fuel` steps do not suffice, or when a
/// pulse reaches a module that does not exist or cannot take it.
pub open spec fn run(
    edges: Seq<(int, int)>,
    nodes: Seq<(Seq<u8>, ModuleType, Seq<bool>)>,
    queue: Seq<(int, bool, int)>,
    low: int,
    high: int,
    end: Option<int>,
    fuel: nat,
) -> Option<(Seq<(Seq<u8>, ModuleType, Seq<bool>)>, int, int, Option<bool>)>
    decreases fuel,
{
    if queue.len() == 0 {
        Some((nodes, low, high, None))
    } else if fuel == 0 {
        None
    } else {
        let (cur, p, from) = queue[0];
        let rest = queue.drop_first();
        let low2 = if p { low } else { low + 1 };
        let high2 = if p { high + 1 } else { high };
        if !(0 <= cur < nodes.len()) || !can_recv(nodes[cur].1, nodes[cur].2, from, p) {
            None
        } else {
            let (st, out) = recv(nodes[cur].1, nodes[cur].2, from, p);
            let nodes2 = nodes.update(cur, (nodes[cur].0, nodes[cur].1, st));
            match out {
                None => run(edges, nodes2, rest, low2, high2, end, (fuel - 1) as nat),
                Some(o) => if end == Some(cur) && o {
                    Some((nodes2, low2, high2, Some(true)))
                } else {
                    run(edges, nodes2, rest + sends(edges, cur, o), low2, high2, end, (fuel - 1) as nat)
                },
            }
        }
    }
}

/// Pressing the button: a low pulse to module `b`, handled to the end (see
/// `run`); `None` if the pulses never die out.
pub open spec fn press(
    edges: Seq<(int, int)>,
    nodes: Seq<(Seq<u8>, ModuleType, Seq<bool>)>,
    b: int,
    end: Option<int>,
) -> Option<(Seq<(Seq<u8>, ModuleType, Seq<bool>)>, int, int, Option<bool>)> {
    if exists|f: nat| #[trigger] run(edges, nodes, seq![(b, false, 0int)], 0, 0, end, f) is Some {
        run(edges, nodes, seq![(b, false, 0int)], 0, 0, end,
            choose|f: nat| #[trigger] run(edges, nodes, seq![(b, false, 0int)], 0, 0, end, f) is Some)
    } else {
        None
    }
}


proof fn lemma_out_in(edges: Seq<(int, int)>, cur: int, t: int, k: int)
    requires
        0 <= k <= edges.len(),
        out_list(edges, cur, k).contains(t),
    ensures
        in_list(edges, t, k).contains(cur),
    decreases k,
{
    if k > 0 {
        let e = edges[k - 1];
        if e.0 == cur && e.1 == t {
            assert(in_list(edges, t, k)[0] == cur);
        } else {
            if e.0 == cur {
                let i = choose|i: int| 0 <= i < out_list(edges, cur, k).len() && #[trigger] out_list(edges, cur, k)[i] == t;
                assert(out_list(edges, cur, k - 1)[i - 1] == t);
            }
            lemma_out_in(edges, cur, t, k - 1);
            let j = choose|j: int| 0 <= j < in_list(edges, t, k - 1).len() && #[trigger] in_list(edges, t, k - 1)[j] == cur;
            if e.1 == t {
                assert(in_list(edges, t, k)[j + 1] == cur);
            } else {
                assert(in_list(edges, t, k)[j] == cur);
            }
        }
    }
}

proof fn lemma_index_of(l: Seq<int>, x: int, i: int)
    requires
        0 <= i < l.len(),
        l[i] == x,
        forall|j: int| 0 <= j < i ==> l[j] != x,
    ensures
        index_of(l, x) == i,
    decreases i,
{
    if i > 0 {
        lemma_index_of(l.drop_first(), x, i - 1);
    }
}

/// Every wire joins two modules of the network.
pub open spec fn edges_ok(edges: Seq<(int, int)>, n: int) -> bool {
    forall|i: int| 0 <= i < edges.len() ==> 0 <= (#[trigger] edges[i]).0 < n && 0 <= edges[i].1 < n
}

proof fn lemma_out_bound(edges: Seq<(int, int)>, cur: int, k: int, n: int)
    requires
        0 <= k <= edges.len(),
        edges_ok(edges, n),
    ensures
        forall|i: int| 0 <= i < out_list(edges, cur, k).len() ==> 0 <= #[trigger] out_list(edges, cur, k)[i] < n,
    decreases k,
{
    if k > 0 {
        lemma_out_bound(edges, cur, k - 1, n);
        let e = edges[k - 1];
        if e.0 == cur {
            assert forall|i: int| 0 <= i < out_list(edges, cur, k).len() implies 0 <= #[trigger] out_list(edges, cur, k)[i] < n by {
                if i > 0 {
                    assert(out_list(edges, cur, k)[i] == out_list(edges, cur, k - 1)[i - 1]);
                }
            }
        }
    }
}

proof fn lemma_run_counts(
    edges: Seq<(int, int)>,
    nodes: Seq<(Seq<u8>, ModuleType, Seq<bool>)>,
    q: Seq<(int, bool, int)>,
    low: int,
    high: int,
    end: Option<int>,
    fuel: nat,
)
    ensures
        run(edges, nodes, q, low, high, end, fuel) matches Some(rr) ==> rr.1 >= low && rr.2 >= high
            && (q.len() > 0 ==> (q[0].1 ==> rr.2 >= high + 1) && (!q[0].1 ==> rr.1 >= low + 1)),
    decreases fuel,
{
    if q.len() > 0 && fuel > 0 {
        let (cur, p, from) = q[0];
        let rest = q.drop_first();
        let low2 = if p { low } else { low + 1 };
        let high2 = if p { high + 1 } else { high };
        if 0 <= cur < nodes.len() && can_recv(nodes[cur].1, nodes[cur].2, from, p) {
            let (st, out) = recv(nodes[cur].1, nodes[cur].2, from, p);
            let nodes2 = nodes.update(cur, (nodes[cur].0, nodes[cur].1, st));
            lemma_run_counts(edges, nodes2, rest, low2, high2, end, (fuel - 1) as nat);
            if let Some(o) = out {
                lemma_run_counts(edges, nodes2, rest + sends(edges, cur, o), low2, high2, end, (fuel - 1) as nat);
            }
        }
    }
}

pub open spec fn queue_view(q: Seq<(usize, bool, usize)>) -> Seq<(int, bool, int)> {
    q.map_values(|e: (usize, bool, usize)| (e.0 as int, e.1, e.2 as int))
}

/// The place of `cur` among the senders of `s`.
fn sender_place(g: &Graph<ModuleState, ()>, s: usize, cur: usize) -> (res: usize)
    requires
        s < mg_nodes(*g).len(),
        in_list(mg_edges(*g), s as int, mg_edges(*g).len() as int).contains(cur as int),
    ensures
        res as int == index_of(in_list(mg_edges(*g), s as int, mg_edges(*g).len() as int), cur as int),
{
    let preds = mg_preds(g, s);
    let ghost l = in_list(mg_edges(*g), s as int, mg_edges(*g).len() as int);
    let mut i: usize = 0;
    while i < preds.len()
        invariant
            preds@.map_values(|u: usize| u as int) == l,
            l == in_list(mg_edges(*g), s as int, mg_edges(*g).len() as int),
            l.contains(cur as int),
            i <= preds@.len(),
            forall|j: int| 0 <= j < i ==> l[j] != cur,
        decreases preds@.len() - i,
    {
        assert(l[i as int] == preds@[i as int] as int);
        if preds[i] == cur {
            proof {
                lemma_index_of(l, cur as int, i as int);
                assert(index_of(l, cur as int) == i as int);
            }
            return i;
        }
        i += 1;
    }
    proof {
        let j = choose|j: int| 0 <= j < l.len() && #[trigger] l[j] == cur;
        assert(false);
    }
    0
}

/// Presses the button: sends a low pulse to `broadcaster` and handles the
/// pulses until they die out, or until `end` sends a high pulse; returns the
/// numbers of low and high pulses handled, and `Some(true)` if it stopped at
/// `end` (see `press`).
#[verifier::loop_isolation(false)]
pub fn push_button(g: &mut Graph<ModuleState, ()>, broadcaster: usize, end: Option<usize>) -> (res: (u64, u64, Option<bool>))
    requires
        edges_ok(mg_edges(*old(g)), mg_nodes(*old(g)).len() as int),
        press(mg_edges(*old(g)), mg_nodes(*old(g)), broadcaster as int, match end { Some(e) => Some(e as int), None => None }) matches Some(r)
            && r.1 <= u64::MAX && r.2 <= u64::MAX,
    ensures
        press(mg_edges(*old(g)), mg_nodes(*old(g)), broadcaster as int, match end { Some(e) => Some(e as int), None => None }) matches Some(r)
            && mg_nodes(*final(g)) == r.0 && res.0 == r.1 && res.1 == r.2 && res.2 == r.3,
        mg_edges(*final(g)) == mg_edges(*old(g)),
        mg_nodes(*final(g)).len() == mg_nodes(*old(g)).len(),
{
    let ghost edges = mg_edges(*g);
    let ghost ge = match end { Some(e) => Some(e as int), None => None::<int> };
    let ghost f0 = choose|f: nat| #[trigger] run(edges, mg_nodes(*g), seq![(broadcaster as int, false, 0int)], 0, 0, ge, f) is Some;
    let ghost r = run(edges, mg_nodes(*g), seq![(broadcaster as int, false, 0int)], 0, 0, ge, f0);
    let mut queue: std::collections::VecDeque<(usize, bool, usize)> = std::collections::VecDeque::new();
    queue.push_back((broadcaster, false, 0));
    let mut high: u64 = 0;
    let mut low: u64 = 0;
    let mut end_pulse: Option<bool> = None;
    let ghost mut fuel: nat = f0;
    assert(queue_view(queue@) =~= seq![(broadcaster as int, false, 0int)]);
    loop
        invariant
            edges == mg_edges(*g),
            edges_ok(edges, mg_nodes(*g).len() as int),
            mg_nodes(*g).len() == mg_nodes(*old(g)).len(),
            r matches Some(rr) && rr.1 <= u64::MAX && rr.2 <= u64::MAX,
            end_pulse is None,
            run(edges, mg_nodes(*g), queue_view(queue@), low as int, high as int, ge, fuel) == r,
            ge == match end { Some(e) => Some(e as int), None => None::<int> },
        decreases fuel,
    {
        let ghost q = queue_view(queue@);
        if queue.len() == 0 {
            break;
        }
        let (cur, in_pulse, from_idx) = match queue.pop_front() {
            Some(e) => e,
            None => {
                proof {
                    assert(false);
                }
                break;
            },
        };
        assert(queue_view(queue@) =~= q.drop_first());
        proof {
            lemma_run_counts(edges, mg_nodes(*g), q, low as int, high as int, ge, fuel);
        }
        if in_pulse {
            high += 1;
        } else {
            low += 1;
        }
        let ty = mg_ty(g, cur);
        let bits = mg_bits(g, cur);
        let mut ms = ModuleState { name: Vec::new(), ty, state: bits };
        let out = ms.recv_pulse(from_idx, in_pulse);
        let ModuleState { name: _, ty: _, state: nbits } = ms;
        mg_set_bits(g, cur, nbits);
        proof {
            fuel = (fuel - 1) as nat;
        }
        match out {
            Some(out_pulse) => {
                if end == Some(cur) && out_pulse {
                    end_pulse = Some(out_pulse);
                    return (low, high, end_pulse);
                }
                let succs = mg_succs(g, cur);
                let ghost base = queue_view(queue@);
                let ghost sd = sends(edges, cur as int, out_pulse);
                let mut t: usize = 0;
                while t < succs.len()
                    invariant
                        edges == mg_edges(*g),
                        edges_ok(edges, mg_nodes(*g).len() as int),
                        succs@.map_values(|u: usize| u as int) == out_list(edges, cur as int, edges.len() as int),
                        cur < mg_nodes(*g).len(),
                        sd == sends(edges, cur as int, out_pulse),
                        t <= succs@.len(),
                        queue_view(queue@) == base + sd.take(t as int),
                    decreases succs@.len() - t,
                {
                    let sx = succs[t];
                    proof {
                        assert(out_list(edges, cur as int, edges.len() as int)[t as int] == sx as int);
                        lemma_out_in(edges, cur as int, sx as int, edges.len() as int);
                        lemma_out_bound(edges, cur as int, edges.len() as int, mg_nodes(*g).len() as int);
                    }
                    let place = sender_place(g, sx, cur);
                    let ghost before = queue_view(queue@);
                    queue.push_back((sx, out_pulse, place));
                    assert(queue_view(queue@) =~= before.push((sx as int, out_pulse, place as int)));
                    assert(sd.take(t + 1) =~= sd.take(t as int).push(sd[t as int]));
                    t += 1;
                }
                assert(sd.take(succs@.len() as int) =~= sd);
            },
            None => {},
        }
    }
    (low, high, end_pulse)
}

/// Pressing the button succeeds and its counts fit in a `u64`.
pub open spec fn press_ok(
    edges: Seq<(int, int)>,
    nodes: Seq<(Seq<u8>, ModuleType, Seq<bool>)>,
    b: int,
    end: Option<int>,
) -> bool {
    press(edges, nodes, b, end) matches Some(r) && r.1 <= u64::MAX && r.2 <= u64::MAX
}

/// `n` presses one after the other, without a module to stop at: the
/// modules after them and the low and high pulses counted over all of them.
pub open spec fn presses(
    edges: Seq<(int, int)>,
    nodes: Seq<(Seq<u8>, ModuleType, Seq<bool>)>,
    b: int,
    n: nat,
) -> Option<(Seq<(Seq<u8>, ModuleType, Seq<bool>)>, int, int)>
    decreases n,
{
    if n == 0 {
        Some((nodes, 0, 0))
    } else {
        match presses(edges, nodes, b, (n - 1) as nat) {
            Some((ns, l, h)) => match press(edges, ns, b, None) {
                Some(r) => Some((r.0, l + r.1, h + r.2)),
                None => None,
            },
            None => None,
        }
    }
}

/// The counts of a press are not negative.
proof fn lemma_press_counts(
    edges: Seq<(int, int)>,
    nodes: Seq<(Seq<u8>, ModuleType, Seq<bool>)>,
    b: int,
    end: Option<int>,
)
    ensures
        press(edges, nodes, b, end) matches Some(r) ==> r.1 >= 1 && r.2 >= 0,
{
    if exists|f: nat| #[trigger] run(edges, nodes, seq![(b, false, 0int)], 0, 0, end, f) is Some {
        let f = choose|f: nat| #[trigger] run(edges, nodes, seq![(b, false, 0int)], 0, 0, end, f) is Some;
        lemma_run_counts(edges, nodes, seq![(b, false, 0int)], 0, 0, end, f);
    }
}

/// Fewer presses succeed when more do, with counts no larger.
proof fn lemma_presses_prefix(
    edges: Seq<(int, int)>,
    nodes: Seq<(Seq<u8>, ModuleType, Seq<bool>)>,
    b: int,
    m: nat,
    n: nat,
)
    requires
        m <= n,
        presses(edges, nodes, b, n) is Some,
    ensures
        presses(edges, nodes, b, m) matches Some(a) && presses(edges, nodes, b, n) matches Some(t)
            && 0 <= a.1 <= t.1 && 0 <= a.2 <= t.2,
    decreases n,
{
    if n > 0 {
        lemma_presses_prefix(edges, nodes, b, (n - 1) as nat, (n - 1) as nat);
        if m < n {
            lemma_presses_prefix(edges, nodes, b, m, (n - 1) as nat);
        }
        let ns = presses(edges, nodes, b, (n - 1) as nat).unwrap().0;
        lemma_press_counts(edges, ns, b, None);
    }
}

/// The name `broadcaster`.
pub open spec fn broadcaster_name() -> Seq<u8> {
    seq![98u8, 114u8, 111u8, 97u8, 100u8, 99u8, 97u8, 115u8, 116u8, 101u8, 114u8]
}

/// The name `rx`.
pub open spec fn rx_name() -> Seq<u8> {
    seq![114u8, 120u8]
}

fn broadcaster_bytes() -> (res: Vec<u8>)
    ensures
        res@ == broadcaster_name(),
{
    let v: Vec<u8> = vec![98u8, 114u8, 111u8, 97u8, 100u8, 99u8, 97u8, 115u8, 116u8, 101u8, 114u8];
    assert(v@ =~= broadcaster_name());
    v
}

fn rx_bytes() -> (res: Vec<u8>)
    ensures
        res@ == rx_name(),
{
    let v: Vec<u8> = vec![114u8, 120u8];
    assert(v@ =~= rx_name());
    v
}

/// What the first part needs: a network that fits, a module named
/// `broadcaster`, and a thousand presses that succeed with counts whose
/// product fits in a `u64`.
pub open spec fn part1_ok(mods: Seq<(Seq<u8>, ModuleType, Seq<Seq<u8>>)>) -> bool {
    let net = network(mods);
    &&& 3 * names_in(mods, mods.len() as int) < u32::MAX
    &&& lookup(net.idx, broadcaster_name()) matches Some(b)
        && presses(net.edges, net.nodes, b, 1000) matches Some(t)
        && t.1 <= u64::MAX && t.2 <= u64::MAX && t.1 * t.2 <= u64::MAX
}

/// The product of the low and the high pulses over a thousand presses.
pub open spec fn part1_value(mods: Seq<(Seq<u8>, ModuleType, Seq<Seq<u8>>)>) -> int {
    let net = network(mods);
    match lookup(net.idx, broadcaster_name()) {
        Some(b) => match presses(net.edges, net.nodes, b, 1000) {
            Some(t) => t.1 * t.2,
            None => 0,
        },
        None => 0,
    }
}

/// Presses the button a thousand times and multiplies the numbers of low
/// and high pulses sent.
pub fn part1(input: &[Module]) -> (res: u64)
    requires
        part1_ok(mods_view(input@)),
    ensures
        res == part1_value(mods_view(input@)),
{
    let ghost mods = mods_view(input@);
    let (mut g, idx) = make_graph(input);
    let bname = broadcaster_bytes();
    let broadcaster = match find_index(&idx, &bname) {
        Some(i) => i,
        None => {
            proof {
                assert(false);
            }
            0
        },
    };
    let ghost net = network(mods);
    let ghost b = broadcaster as int;
    let ghost t = presses(net.edges, net.nodes, b, 1000).unwrap();
    let mut low: u64 = 0;
    let mut high: u64 = 0;
    let mut n: u64 = 0;
    while n < 1000
        invariant
            n <= 1000,
            mg_edges(g) == net.edges,
            mg_nodes(g).len() == net.nodes.len(),
            edges_ok(mg_edges(g), mg_nodes(g).len() as int),
            presses(net.edges, net.nodes, b, 1000) == Some(t),
            t.1 <= u64::MAX && t.2 <= u64::MAX,
            presses(net.edges, net.nodes, b, n as nat) == Some((mg_nodes(g), low as int, high as int)),
            broadcaster as int == b,
        decreases 1000 - n,
    {
        proof {
            lemma_presses_prefix(net.edges, net.nodes, b, (n + 1) as nat, 1000);
            lemma_press_counts(net.edges, mg_nodes(g), b, None);
        }
        let (l, h, _) = push_button(&mut g, broadcaster, None);
        low = low + l;
        high = high + h;
        n = n + 1;
    }
    low * high
}

/// The modules after `k` presses that each ran to the end without `e`
/// sending a high pulse.
pub open spec fn quiet_presses(
    edges: Seq<(int, int)>,
    nodes: Seq<(Seq<u8>, ModuleType, Seq<bool>)>,
    b: int,
    e: int,
    k: nat,
) -> Option<Seq<(Seq<u8>, ModuleType, Seq<bool>)>>
    decreases k,
{
    if k == 0 {
        Some(nodes)
    } else {
        match quiet_presses(edges, nodes, b, e, (k - 1) as nat) {
            Some(ns) => match press(edges, ns, b, Some(e)) {
                Some(r) => if r.3 == Some(true) { None } else { Some(r.0) },
                None => None,
            },
            None => None,
        }
    }
}

/// Module `e` sends a high pulse during press number `k`, counting from 1.
pub open spec fn fires_at(
    edges: Seq<(int, int)>,
    nodes: Seq<(Seq<u8>, ModuleType, Seq<bool>)>,
    b: int,
    e: int,
    k: nat,
) -> bool {
    &&& k >= 1
    &&& quiet_presses(edges, nodes, b, e, (k - 1) as nat) matches Some(ns)
        && press(edges, ns, b, Some(e)) matches Some(r) && r.3 == Some(true)
}

/// Module `e` first sends a high pulse during press `k`, which fits in a
/// `u64`, and every press before it succeeds with counts that fit.
pub open spec fn period_known(
    edges: Seq<(int, int)>,
    nodes: Seq<(Seq<u8>, ModuleType, Seq<bool>)>,
    b: int,
    e: int,
    k: nat,
) -> bool {
    &&& fires_at(edges, nodes, b, e, k)
    &&& k <= u64::MAX
    &&& forall|j: nat| j < k ==> (#[trigger] quiet_presses(edges, nodes, b, e, j) matches Some(ns)
        ==> press_ok(edges, ns, b, Some(e)))
}

/// Some press is known to be the first during which `e` sends high.
pub open spec fn has_period(
    edges: Seq<(int, int)>,
    nodes: Seq<(Seq<u8>, ModuleType, Seq<bool>)>,
    b: int,
    e: int,
) -> bool {
    exists|k: nat| period_known(edges, nodes, b, e, k)
}

/// The press during which `e` first sends a high pulse.
pub open spec fn period(
    edges: Seq<(int, int)>,
    nodes: Seq<(Seq<u8>, ModuleType, Seq<bool>)>,
    b: int,
    e: int,
) -> nat {
    choose|k: nat| fires_at(edges, nodes, b, e, k)
}

/// Where `k` quiet presses succeed, every press up to `k` was quiet.
proof fn lemma_quiet_prefix(
    edges: Seq<(int, int)>,
    nodes: Seq<(Seq<u8>, ModuleType, Seq<bool>)>,
    b: int,
    e: int,
    k: nat,
)
    requires
        quiet_presses(edges, nodes, b, e, k) is Some,
    ensures
        forall|j: nat| 1 <= j <= k ==> !fires_at(edges, nodes, b, e, j)
            && #[trigger] quiet_presses(edges, nodes, b, e, (j - 1) as nat) is Some,
    decreases k,
{
    if k > 0 {
        lemma_quiet_prefix(edges, nodes, b, e, (k - 1) as nat);
    }
}

/// A module sends its first high pulse during one press only.
pub proof fn lemma_fires_once(
    edges: Seq<(int, int)>,
    nodes: Seq<(Seq<u8>, ModuleType, Seq<bool>)>,
    b: int,
    e: int,
    k: nat,
    m: nat,
)
    requires
        fires_at(edges, nodes, b, e, k),
        fires_at(edges, nodes, b, e, m),
    ensures
        k == m,
{
    if k < m {
        lemma_quiet_prefix(edges, nodes, b, e, (m - 1) as nat);
        assert(quiet_presses(edges, nodes, b, e, (k - 1) as nat) is Some);
    } else if m < k {
        lemma_quiet_prefix(edges, nodes, b, e, (k - 1) as nat);
        assert(quiet_presses(edges, nodes, b, e, (m - 1) as nat) is Some);
    }
}

/// Presses the button, stopping each press when `end` sends a high pulse,
/// until that happens; returns the number of presses it took.
pub fn find_period(g: &mut Graph<ModuleState, ()>, start: usize, end: usize) -> (res: u64)
    requires
        edges_ok(mg_edges(*old(g)), mg_nodes(*old(g)).len() as int),
        has_period(mg_edges(*old(g)), mg_nodes(*old(g)), start as int, end as int),
    ensures
        fires_at(mg_edges(*old(g)), mg_nodes(*old(g)), start as int, end as int, res as nat),
        res == period(mg_edges(*old(g)), mg_nodes(*old(g)), start as int, end as int),
        mg_edges(*final(g)) == mg_edges(*old(g)),
        quiet_presses(mg_edges(*old(g)), mg_nodes(*old(g)), start as int, end as int, (res - 1) as nat) matches Some(ns)
            && press(mg_edges(*old(g)), ns, start as int, Some(end as int)) matches Some(r) && mg_nodes(*final(g)) == r.0,
{
    let ghost edges = mg_edges(*g);
    let ghost nodes = mg_nodes(*g);
    let ghost k = choose|k: nat| period_known(edges, nodes, start as int, end as int, k);
    let mut i: u64 = 1;
    loop
        invariant
            edges == mg_edges(*old(g)),
            nodes == mg_nodes(*old(g)),
            period_known(edges, nodes, start as int, end as int, k),
            1 <= i <= k,
            mg_edges(*g) == edges,
            mg_nodes(*g).len() == nodes.len(),
            edges_ok(edges, nodes.len() as int),
            quiet_presses(edges, nodes, start as int, end as int, (i - 1) as nat) == Some(mg_nodes(*g)),
        decreases k - i,
    {
        let ghost before = mg_nodes(*g);
        proof {
            assert(quiet_presses(edges, nodes, start as int, end as int, (i - 1) as nat) is Some);
        }
        let r = push_button(g, start, Some(end));
        if r.2 == Some(true) {
            proof {
                assert(fires_at(edges, nodes, start as int, end as int, i as nat));
                lemma_fires_once(edges, nodes, start as int, end as int, i as nat,
                    period(edges, nodes, start as int, end as int));
            }
            return i;
        }
        proof {
            assert(quiet_presses(edges, nodes, start as int, end as int, i as nat) == Some(mg_nodes(*g)));
        }
        i = i + 1;
    }
}

/// The least common multiple of the first `m` numbers, folded from 1.
pub open spec fn lcm_upto(ps: Seq<int>, m: int) -> int
    decreases m,
{
    if m <= 0 { 1 } else { lcm_spec(lcm_upto(ps, m - 1), ps[m - 1]) }
}

/// Of positive numbers, the folded least common multiple is their least
/// common multiple: it is positive, a multiple of each of them, and it
/// divides every other multiple of them all (of none, it is 1).
pub proof fn lemma_lcm_upto_least(ps: Seq<int>, m: int)
    requires
        0 <= m <= ps.len(),
        forall|i: int| 0 <= i < m ==> #[trigger] ps[i] > 0,
    ensures
        lcm_upto(ps, m) > 0,
        common_multiple(ps, m, lcm_upto(ps, m)),
        forall|c: int| #[trigger] common_multiple(ps, m, c) ==> c % lcm_upto(ps, m) == 0,
        m == 0 ==> lcm_upto(ps, m) == 1,
    decreases m,
{
    if m > 0 {
        lemma_lcm_upto_least(ps, m - 1);
        let lp = lcm_upto(ps, m - 1);
        let p = ps[m - 1];
        let l = lcm_upto(ps, m);
        assert(p > 0);
        lemma_lcm_multiple(lp, p);
        assert forall|i: int| 0 <= i < m implies l % #[trigger] ps[i] == 0 by {
            if i < m - 1 {
                assert(lp % ps[i] == 0);
                lemma_mod_trans(ps[i], lp, l);
            }
        }
        assert forall|c: int| #[trigger] common_multiple(ps, m, c) implies c % l == 0 by {
            assert forall|i: int| 0 <= i < m - 1 implies c % #[trigger] ps[i] == 0 by {}
            assert(common_multiple(ps, m - 1, c));
            assert(c % p == 0);
            lemma_lcm_divides(lp, p, c);
        }
    }
}

/// The module that sends to `rx` first (the latest wire to it).
pub open spec fn feeder(net: Build) -> int {
    match lookup(net.idx, rx_name()) {
        Some(x) => in_list(net.edges, x, net.edges.len() as int)[0],
        None => 0,
    }
}

/// The senders of the feeder of `rx`, the latest wire first.
pub open spec fn feeder_inputs(net: Build) -> Seq<int> {
    in_list(net.edges, feeder(net), net.edges.len() as int)
}

/// The press during which each sender of the feeder first sends high.
pub open spec fn periods(net: Build) -> Seq<int> {
    let b = match lookup(net.idx, broadcaster_name()) { Some(b) => b, None => 0 };
    let ins = feeder_inputs(net);
    Seq::new(ins.len(), |i: int| period(net.edges, net.nodes, b, ins[i]) as int)
}

/// What the second part needs: a network that fits, modules named
/// `broadcaster` and `rx`, a conjunction that sends to `rx` first, and for
/// each of its senders a press that fits during which it first sends high;
/// the folded least common multiples of those presses fit in an `i64`.
pub open spec fn part2_ok(mods: Seq<(Seq<u8>, ModuleType, Seq<Seq<u8>>)>) -> bool {
    let net = network(mods);
    let ins = feeder_inputs(net);
    let ps = periods(net);
    &&& 3 * names_in(mods, mods.len() as int) < u32::MAX
    &&& lookup(net.idx, broadcaster_name()) matches Some(b)
        && forall|i: int| 0 <= i < ins.len() ==> #[trigger] has_period(net.edges, net.nodes, b, ins[i])
    &&& lookup(net.idx, rx_name()) matches Some(x)
        && in_list(net.edges, x, net.edges.len() as int).len() > 0
    &&& net.nodes[feeder(net)].1 == ModuleType::Conjunction
    &&& forall|m: int| 1 <= m <= ps.len() ==> #[trigger] lcm_upto(ps, m) <= i64::MAX && ps[m - 1] <= i64::MAX
}

/// The first press after which `rx` gets a low pulse, as the least common
/// multiple of the periods of the feeder's senders.
pub open spec fn part2_value(mods: Seq<(Seq<u8>, ModuleType, Seq<Seq<u8>>)>) -> int {
    let ps = periods(network(mods));
    lcm_upto(ps, ps.len() as int)
}

/// The least common multiple of the presses after which each sender of the
/// conjunction in front of `rx` first sends high.
pub fn part2(input: &[Module]) -> (res: u64)
    requires
        part2_ok(mods_view(input@)),
    ensures
        res == part2_value(mods_view(input@)),
        res > 0,
        common_multiple(periods(network(mods_view(input@))), periods(network(mods_view(input@))).len() as int, res as int),
        forall|c: int| #[trigger] common_multiple(periods(network(mods_view(input@))),
            periods(network(mods_view(input@))).len() as int, c) ==> c % (res as int) == 0,
{
    let ghost mods = mods_view(input@);
    let ghost net = network(mods);
    let (g, idx) = make_graph(input);
    let bname = broadcaster_bytes();
    let broadcaster = match find_index(&idx, &bname) {
        Some(i) => i,
        None => {
            proof {
                assert(false);
            }
            0
        },
    };
    let rname = rx_bytes();
    let rx = match find_index(&idx, &rname) {
        Some(i) => i,
        None => {
            proof {
                assert(false);
            }
            0
        },
    };
    proof {
        lemma_lookup(net.idx, rx_name(), net.nodes.len() as int);
    }
    let rx_preds = mg_preds(&g, rx);
    assert(rx_preds@.map_values(|u: usize| u as int)[0] == rx_preds@[0] as int);
    let pred = rx_preds[0];
    proof {
        assert(pred as int == feeder(net));
        lemma_in_bound(net.edges, rx as int, net.edges.len() as int, net.nodes.len() as int);
        assert(in_list(net.edges, rx as int, net.edges.len() as int)[0] == pred as int);
    }
    let incoming = mg_preds(&g, pred);
    let ghost ins = feeder_inputs(net);
    let ghost ps = periods(net);
    proof {
        lemma_in_bound(net.edges, pred as int, net.edges.len() as int, net.nodes.len() as int);
    }
    let mut ret: i64 = 1;
    let mut t: usize = 0;
    while t < incoming.len()
        invariant
            mods == mods_view(input@),
            net == network(mods),
            part2_ok(mods),
            mg_edges(g) == net.edges,
            mg_nodes(g) == net.nodes,
            edges_ok(net.edges, net.nodes.len() as int),
            ins == feeder_inputs(net),
            ps == periods(net),
            lookup(net.idx, broadcaster_name()) == Some(broadcaster as int),
            incoming@.map_values(|u: usize| u as int) == ins,
            forall|i: int| 0 <= i < ins.len() ==> 0 <= #[trigger] ins[i] < net.nodes.len(),
            t <= incoming@.len(),
            ret as int == lcm_upto(ps, t as int),
        decreases incoming@.len() - t,
    {
        let i = incoming[t];
        assert(ins[t as int] == i as int);
        let mut subg = mg_clone(&g);
        let p = find_period(&mut subg, broadcaster, i);
        proof {
            assert(ps[t as int] == p as int);
            assert(1 <= t + 1 <= ps.len());
            assert(lcm_upto(ps, t + 1) <= i64::MAX && ps[t as int] <= i64::MAX);
            lemma_lcm_upto_nonneg(ps, t as int);
        }
        ret = lcm_i64(ret, p as i64);
        t = t + 1;
    }
    proof {
        lemma_lcm_upto_nonneg(ps, ps.len() as int);
        assert forall|i: int| 0 <= i < ps.len() implies #[trigger] ps[i] > 0 by {
            lemma_period_pos(net.edges, net.nodes, broadcaster as int, ins[i]);
        }
        lemma_lcm_upto_least(ps, ps.len() as int);
    }
    ret as u64
}

proof fn lemma_period_pos(
    edges: Seq<(int, int)>,
    nodes: Seq<(Seq<u8>, ModuleType, Seq<bool>)>,
    b: int,
    e: int,
)
    requires
        has_period(edges, nodes, b, e),
    ensures
        period(edges, nodes, b, e) >= 1,
{
    let k = choose|k: nat| period_known(edges, nodes, b, e, k);
    assert(fires_at(edges, nodes, b, e, k));
}

proof fn lemma_lcm_upto_nonneg(ps: Seq<int>, m: int)
    requires
        forall|i: int| 0 <= i < ps.len() ==> ps[i] >= 0,
        m <= ps.len(),
    ensures
        lcm_upto(ps, m) >= 0,
    decreases m,
{
    if m > 0 {
        lemma_lcm_upto_nonneg(ps, m - 1);
        lemma_lcm_nonneg(lcm_upto(ps, m - 1), ps[m - 1]);
    }
}

proof fn lemma_in_bound(edges: Seq<(int, int)>, v: int, k: int, n: int)
    requires
        0 <= k <= edges.len(),
        edges_ok(edges, n),
    ensures
        forall|i: int| 0 <= i < in_list(edges, v, k).len() ==> 0 <= #[trigger] in_list(edges, v, k)[i] < n,
    decreases k,
{
    if k > 0 {
        lemma_in_bound(edges, v, k - 1, n);
        let e = edges[k - 1];
        if e.1 == v {
            assert forall|i: int| 0 <= i < in_list(edges, v, k).len() implies 0 <= #[trigger] in_list(edges, v, k)[i] < n by {
                if i > 0 {
                    assert(in_list(edges, v, k)[i] == in_list(edges, v, k - 1)[i - 1]);
                }
            }
        }
    }
}

} // verus!
