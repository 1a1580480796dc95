//! Elaboration: expands logic definitions into circuit nodes, links and sequential
//! elements. Hierarchical instances are elaborated under hidden sub-prefixes and wired to
//! their parent lane by lane; design-rule warnings are collected as lints.
use crate::ast::{BindRef, BindTarget, Elem, Endpoint, Expr, InstArg, LogicDef, LogicStmt, Port, Qual, RegInit, Sel, WidthExpr};
use crate::circuit::{lemma_root_bound, same_names, CEdge, CSeq, Circuit, NodeKind, ObsMode, SeqKind, ZeroRep};
use crate::diag::{fail, lint, warn, RvResult, Warning};
use crate::parser::line_err;
use crate::lexer::ErrSpec;
use crate::interp::{in_strs, idx_val, bind_target_desc, build_callee_param_env, check_binding_arity, check_target_overlap, join, lookup_logic, push_joined, require_output_ports, require_single_output, resolve_parent_ref, slice_lanes, lanes_ok, scope_nodes_ok, scope_fits, lemma_ep_res_nodes, ep_view, ep_res, resolve_endpoint, endpoint_desc, Ep, RefScope, comparator_mode, repeater_delay, resolve_width, chunk_elems, expand, expand_chain_tokens, parse_chunk, visited_ok, ChainScope, PortShape};
use crate::parser::{logic_def_ok, logic_stmt_ok, logics_ok, strs_view};
use crate::strs::{assoc_idx, lemma_assoc_idx, cat2, cat3, cat4, cat5, format_uint, int_str, own, sort_strs, str_eq, uint_text, StrMap, StrSet};
use vstd::prelude::*;

verus! {

/// A port list: names and shapes, in declaration order.
pub type Ports = Vec<(String, PortShape)>;

/// The elaboration state: the circuit being built, the logics being elaborated (to detect
/// recursive instantiation), a counter that names sub-instances, the logics whose static
/// lints were already reported, and the warnings raised.
pub struct Elaborator {
    pub c: Circuit,
    pub stack: Vec<String>,
    pub counter: usize,
    pub linted: StrSet,
    pub warnings: Vec<Warning>,
}

/// All lanes of a shape are nodes of a circuit with `n` nodes.
pub open spec fn shape_ok(s: PortShape, n: nat) -> bool {
    match s {
        PortShape::Scalar(x) => x < n,
        PortShape::Bus(v) => forall|i: int| 0 <= i < v@.len() ==> #[trigger] v@[i] < n,
    }
}


/// Element kind of a sequential element in a chain (repeater, torch, observer with its
/// edge mode, comparator in compare or subtract mode).
pub open spec fn seq_kind_of(e: Elem) -> SeqKind {
    if e.k == 'r' {
        SeqKind::Rep
    } else if e.k == 't' {
        SeqKind::Torch
    } else if e.k == 'C' {
        SeqKind::CompCmp
    } else if e.k == 'S' {
        SeqKind::CompSub
    } else if e.n == 1 {
        SeqKind::Observer(ObsMode::Rise)
    } else if e.n == 2 {
        SeqKind::Observer(ObsMode::Fall)
    } else if e.n == 3 {
        SeqKind::Observer(ObsMode::Edge)
    } else {
        SeqKind::Observer(ObsMode::Any)
    }
}

/// History length of a sequential chain element: the repeater's delay, two samples for
/// an observer, one tick otherwise.
pub open spec fn seq_delay_of(e: Elem) -> i32 {
    if e.k == 'r' {
        e.n
    } else if e.k == 'o' {
        2
    } else {
        1
    }
}

/// A 0-tick repeater (`r0`): a combinational amplifier.
pub open spec fn is_zero_rep(e: Elem) -> bool {
    e.k == 'r' && e.n == 0
}

/// A sequential chain element: a delayed repeater, a torch, an observer or a comparator.
pub open spec fn is_seq_elem(e: Elem) -> bool {
    (e.k == 'r' && e.n >= 1) || e.k == 't' || e.k == 'o' || e.k == 'C' || e.k == 'S'
}

/// Dust strength loss accumulated along a chain segment (it cannot pass `i32::MAX`).
pub open spec fn sat_inc(d: i32) -> i32 {
    if d == i32::MAX {
        d
    } else {
        (d + 1) as i32
    }
}

/// Name of an internal node of chain `label`: `prefix.label` + `tag` + element number.
pub open spec fn chain_name(prefix: Seq<char>, label: Seq<char>, tag: Seq<char>, idx: nat) -> Seq<char> {
    prefix + "."@ + label + tag + uint_text(idx, 10)
}

/// Label of the element numbered `idx` of chain `label`: `prefix.label[idx]`.
pub open spec fn chain_label(prefix: Seq<char>, label: Seq<char>, idx: nat) -> Seq<char> {
    prefix + "."@ + label + "["@ + uint_text(idx, 10) + "]"@
}

/// A registered sequential element as (kind, delay, input, output, label, line).
pub open spec fn seq_view(q: CSeq) -> (SeqKind, i32, usize, usize, Seq<char>, i32) {
    (q.kind, q.delay, q.in_, q.out, q.label@, q.line)
}

/// What a chain adds to a circuit: edges, names of new nodes, sequential elements, and
/// 0-tick repeaters.
pub type ChainOut = (Seq<CEdge>, Seq<Seq<char>>, Seq<(SeqKind, i32, usize, usize, Seq<char>, i32)>, Seq<ZeroRep>);

/// Two chain contributions one after the other.
pub open spec fn chain_join(a: ChainOut, b: ChainOut) -> ChainOut {
    (a.0 + b.0, a.1 + b.1, a.2 + b.2, a.3 + b.3)
}

/// What one non-dust element numbered `idx` adds: an edge from the segment start `prev`
/// (with loss `decay`) to its input node `nn`, the input and output nodes `nn`, `nn + 1`,
/// and the element itself between them.
pub open spec fn chain_step(e: Elem, idx: nat, prev: usize, decay: i32, nn: int, prefix: Seq<char>, label: Seq<char>) -> ChainOut {
    let ni = nn as usize;
    let no = (nn + 1) as usize;
    (
        seq![CEdge { s: prev, d: ni, decay }],
        seq![chain_name(prefix, label, "#i"@, idx), chain_name(prefix, label, "#o"@, idx)],
        if is_zero_rep(e) {
            seq![]
        } else {
            seq![(seq_kind_of(e), seq_delay_of(e), ni, no, chain_label(prefix, label, idx), e.line)]
        },
        if is_zero_rep(e) {
            seq![ZeroRep { in_: ni, out: no }]
        } else {
            seq![]
        },
    )
}

/// The circuit built for elements `es[i..]` of a chain ending in node `ti`, when the
/// segment so far starts at node `prev` with `decay` dust, and the next fresh node is
/// `nn`. Dust adds one loss; each other element gets an input node and an output node,
/// linked from the segment by an edge with its loss, and starts a new segment at its
/// output; the last segment ends at `ti`.
pub open spec fn chain_from(
    es: Seq<Elem>,
    i: int,
    prev: usize,
    decay: i32,
    nn: int,
    ti: usize,
    prefix: Seq<char>,
    label: Seq<char>,
) -> ChainOut
    decreases es.len() - i,
{
    if i >= es.len() {
        (seq![CEdge { s: prev, d: ti, decay }], seq![], seq![], seq![])
    } else {
        let e = es[i];
        let idx = (i + 1) as nat;
        if e.k == 'd' {
            chain_from(es, i + 1, prev, sat_inc(decay), nn, ti, prefix, label)
        } else if is_zero_rep(e) || is_seq_elem(e) {
            let no = (nn + 1) as usize;
            let here = chain_step(e, idx, prev, decay, nn, prefix, label);
            chain_join(here, chain_from(es, i + 1, no, 0, nn + 2, ti, prefix, label))
        } else {
            chain_from(es, i + 1, prev, decay, nn, ti, prefix, label)
        }
    }
}

/// The chain contribution already present in circuit `c` beyond the first `e0` edges,
/// `n0` nodes, `s0` sequential elements and `z0` 0-tick repeaters.
pub open spec fn chain_built(c: Circuit, e0: int, n0: int, s0: int, z0: int) -> ChainOut {
    (
        c.edges@.subrange(e0, c.edges@.len() as int),
        Seq::new((c.nodes@.len() - n0) as nat, |k: int| c.nodes@[n0 + k].name@),
        Seq::new((c.seqs@.len() - s0) as nat, |k: int| seq_view(c.seqs@[s0 + k])),
        c.zero_reps@.subrange(z0, c.zero_reps@.len() as int),
    )
}

/// Joining contributions is associative.
proof fn lemma_join_assoc(a: ChainOut, b: ChainOut, c: ChainOut)
    ensures
        chain_join(chain_join(a, b), c) == chain_join(a, chain_join(b, c)),
{
    assert(a.0 + b.0 + c.0 =~= a.0 + (b.0 + c.0));
    assert(a.1 + b.1 + c.1 =~= a.1 + (b.1 + c.1));
    assert(a.2 + b.2 + c.2 =~= a.2 + (b.2 + c.2));
    assert(a.3 + b.3 + c.3 =~= a.3 + (b.3 + c.3));
}

/// Adding the contribution `here` to circuit `c0` (as `push_chain_elem` or a final edge
/// does) extends what is built beyond the bases by `here`.
proof fn lemma_built_step(c0: Circuit, c1: Circuit, e0: int, n0: int, s0: int, z0: int, here: ChainOut)
    requires
        0 <= e0 <= c0.edges@.len(),
        0 <= n0 <= c0.nodes@.len(),
        0 <= s0 <= c0.seqs@.len(),
        0 <= z0 <= c0.zero_reps@.len(),
        c1.edges@ == c0.edges@ + here.0,
        c1.zero_reps@ == c0.zero_reps@ + here.3,
        c1.nodes@.len() == c0.nodes@.len() + here.1.len(),
        same_names(c0.nodes@, c1.nodes@.subrange(0, c0.nodes@.len() as int)),
        forall|k: int| 0 <= k < here.1.len() ==> #[trigger] c1.nodes@[c0.nodes@.len() + k].name@ == here.1[k],
        c1.seqs@.len() == c0.seqs@.len() + here.2.len(),
        c1.seqs@.subrange(0, c0.seqs@.len() as int) == c0.seqs@,
        forall|k: int| 0 <= k < here.2.len() ==> seq_view(#[trigger] c1.seqs@[c0.seqs@.len() + k]) == here.2[k],
    ensures
        chain_built(c1, e0, n0, s0, z0) == chain_join(chain_built(c0, e0, n0, s0, z0), here),
        c1.edges@.subrange(0, e0) == c0.edges@.subrange(0, e0),
        c1.zero_reps@.subrange(0, z0) == c0.zero_reps@.subrange(0, z0),
        c1.seqs@.subrange(0, s0) == c0.seqs@.subrange(0, s0),
{
    let b0 = chain_built(c0, e0, n0, s0, z0);
    let b1 = chain_built(c1, e0, n0, s0, z0);
    assert(b1.0 =~= b0.0 + here.0);
    assert(b1.3 =~= b0.3 + here.3);
    assert(b1.1 =~= b0.1 + here.1) by {
        assert forall|k: int| 0 <= k < b1.1.len() implies b1.1[k] == (b0.1 + here.1)[k] by {
            if n0 + k < c0.nodes@.len() {
                assert(c1.nodes@.subrange(0, c0.nodes@.len() as int)[n0 + k] == c1.nodes@[n0 + k]);
            } else {
                let j = n0 + k - c0.nodes@.len();
                assert(c1.nodes@[c0.nodes@.len() + j].name@ == here.1[j]);
            }
        }
    }
    assert(b1.2 =~= b0.2 + here.2) by {
        assert forall|k: int| 0 <= k < b1.2.len() implies b1.2[k] == (b0.2 + here.2)[k] by {
            if s0 + k < c0.seqs@.len() {
                assert(c1.seqs@.subrange(0, c0.seqs@.len() as int)[s0 + k] == c1.seqs@[s0 + k]);
            } else {
                let j = s0 + k - c0.seqs@.len();
                assert(seq_view(c1.seqs@[c0.seqs@.len() + j]) == here.2[j]);
            }
        }
    }
    assert(c1.edges@.subrange(0, e0) =~= c0.edges@.subrange(0, e0));
    assert(c1.zero_reps@.subrange(0, z0) =~= c0.zero_reps@.subrange(0, z0));
    assert(c1.seqs@.subrange(0, s0) =~= c0.seqs@.subrange(0, s0)) by {
        assert forall|k: int| 0 <= k < s0 implies c1.seqs@[k] == c0.seqs@[k] by {
            assert(c1.seqs@.subrange(0, c0.seqs@.len() as int)[k] == c1.seqs@[k]);
        }
    }
}

/// The names and nodes of one logic body being elaborated: scalar points (with their
/// qualifiers), comparator/repeater regs (back, side), bus comparator/repeater regs
/// (backs, sides), wires, buses, declaration lines, wire element sequences (and which
/// were assigned), the wires used by chains, the input and output ports, and the
/// statements (by index) whose wiring waits until every node exists: instances and
/// chains.
pub struct Body {
    pub scope: StrMap<usize>,
    pub qual_of: StrMap<Qual>,
    pub side_regs: StrMap<(usize, usize)>,
    pub bus_side_regs: StrMap<(Vec<usize>, Vec<usize>)>,
    pub wire_names: StrSet,
    pub buses: StrMap<Vec<usize>>,
    pub decl_lines: StrMap<i32>,
    pub wire_seq: StrMap<(i32, Vec<String>)>,
    pub wseq_seen: StrSet,
    pub used_wires: StrSet,
    pub inputs: Ports,
    pub outs: Ports,
    pub instances: Vec<usize>,
    pub chains: Vec<usize>,
}

/// A token of a wire's element sequence defined at `line` is an element chunk, or the
/// name of another wire; never a named node or bus.
pub open spec fn wire_tok_ok(b: Body, tok: Seq<char>, line: i32) -> bool {
    &&& !(b.scope.has(tok) || b.buses.has(tok))
    &&& (b.wire_names.has(tok) || crate::interp::chunk_from(vstd::utf8::encode_utf8(tok), 0, line, tok) is Ok)
}

impl Body {
    /// Every node the body names is one of the first `n` nodes; buses fit an `i32` width,
    /// and a bus comparator/repeater reg has as many backs and sides as out lanes.
    pub open spec fn nodes_ok(&self, n: nat) -> bool {
        &&& forall|k: Seq<char>| #[trigger] self.scope.get_spec(k) matches Some(x) ==> x < n
        &&& forall|k: Seq<char>| #[trigger] self.side_regs.get_spec(k) matches Some(p) ==> p.0 < n && p.1 < n
        &&& forall|k: Seq<char>| #[trigger] self.buses.get_spec(k) matches Some(v) ==> v@.len() <= i32::MAX && lanes_ok(v@, n)
        &&& forall|k: Seq<char>| #[trigger] self.bus_side_regs.get_spec(k) matches Some(p) ==> lanes_ok(p.0@, n)
            && lanes_ok(p.1@, n) && (self.buses.get_spec(k) matches Some(v) && v@.len() == p.0@.len() && v@.len()
            == p.1@.len())
        &&& forall|i: int| 0 <= i < self.inputs@.len() ==> shape_ok((#[trigger] self.inputs@[i]).1, n)
        &&& forall|i: int| 0 <= i < self.outs@.len() ==> shape_ok((#[trigger] self.outs@[i]).1, n)
    }

    /// Whether `k` already names a point, a wire or a bus.
    pub open spec fn taken(&self, k: Seq<char>) -> bool {
        self.scope.has(k) || self.wire_names.has(k) || self.buses.has(k)
    }

    /// An empty body.
    pub fn new() -> (r: Body)
        ensures
            r.nodes_ok(0),
            forall|k: Seq<char>| !r.taken(k),
            r.inputs@.len() == 0 && r.outs@.len() == 0,
            r.instances@.len() == 0 && r.chains@.len() == 0,
            r.wire_seq.entries@.len() == 0,
    {
        Body {
            scope: StrMap::new(),
            qual_of: StrMap::new(),
            side_regs: StrMap::new(),
            bus_side_regs: StrMap::new(),
            wire_names: StrSet::new(),
            buses: StrMap::new(),
            decl_lines: StrMap::new(),
            wire_seq: StrMap::new(),
            wseq_seen: StrSet::new(),
            used_wires: StrSet::new(),
            inputs: Vec::new(),
            outs: Vec::new(),
            instances: Vec::new(),
            chains: Vec::new(),
        }
    }

    /// Whether `k` already names a point, a wire or a bus.
    pub fn is_taken(&self, k: &str) -> (r: bool)
        ensures
            r == self.taken(k@),
    {
        self.scope.contains_key(k) || self.wire_names.contains(k) || self.buses.contains_key(k)
    }
}

impl Body {
    /// What an endpoint of this body can name.
    pub open spec fn ref_scope(&self, env: Seq<(String, i64)>, defines: Seq<(String, i64)>) -> RefScope {
        RefScope {
            scope: self.scope,
            side_regs: self.side_regs,
            bus_side_regs: self.bus_side_regs,
            buses: self.buses,
            wires: self.wire_names,
            env,
            defines,
        }
    }
}

/// The endpoint scope of a body whose nodes are valid fits and names valid nodes.
pub proof fn lemma_ref_scope_ok(b: &Body, env: Seq<(String, i64)>, defines: Seq<(String, i64)>, n: nat)
    requires
        b.nodes_ok(n),
    ensures
        scope_fits(b.ref_scope(env, defines)),
        scope_nodes_ok(b.ref_scope(env, defines), n),
{
    assert forall|k: Seq<char>| #[trigger] b.bus_side_regs.get_spec(k) matches Some(p) ==> p.0@.len() <= i32::MAX && p.1@.len() <= i32::MAX by {
        if b.bus_side_regs.get_spec(k) is Some {
            assert(b.buses.get_spec(k) is Some);
        }
    }
}

/// `n` copies of node `x`.
fn repeat_lane(x: usize, n: usize) -> (r: Vec<usize>)
    ensures
        r@ == Seq::new(n as nat, |_i: int| x),
{
    let mut v: Vec<usize> = Vec::new();
    let mut i: usize = 0;
    while i < n
        invariant
            i <= n,
            v@ == Seq::new(i as nat, |_j: int| x),
        decreases n - i,
    {
        v.push(x);
        i += 1;
        assert(v@ =~= Seq::new(i as nat, |_j: int| x));
    }
    v
}

/// The keys of a table as a set.
fn key_set<V>(m: &StrMap<V>) -> (r: StrSet)
    ensures
        forall|k: Seq<char>| #[trigger] r.has(k) == m.has(k),
{
    let mut out = StrSet::new();
    let mut i: usize = 0;
    while i < m.entries.len()
        invariant
            i <= m.entries@.len(),
            forall|k: Seq<char>| #[trigger] out.has(k) == crate::strs::seen(m.entries@, i as int, k),
        decreases m.entries@.len() - i,
    {
        proof {
            crate::strs::lemma_seen_step(m.entries@, i as int);
        }
        out.insert(m.entries[i].0.clone());
        i += 1;
    }
    proof {
        assert forall|k: Seq<char>| #[trigger] out.has(k) == m.has(k) by {
            crate::strs::lemma_seen_all(m.entries@, k);
        }
    }
    out
}

/// The body's nodes stay valid as the circuit grows.
pub proof fn lemma_nodes_ok_grow(b: &Body, n: nat, m: nat)
    requires
        b.nodes_ok(n),
        n <= m,
    ensures
        b.nodes_ok(m),
{
    assert forall|k: Seq<char>| #[trigger] b.buses.get_spec(k) matches Some(v) ==> v@.len() <= i32::MAX && lanes_ok(v@, m) by {
        if let Some(v) = b.buses.get_spec(k) {
            assert forall|i: int| 0 <= i < v@.len() implies #[trigger] v@[i] < m by {
                assert(lanes_ok(v@, n));
            }
        }
    }
    assert forall|k: Seq<char>| #[trigger] b.bus_side_regs.get_spec(k) matches Some(p) ==> lanes_ok(p.0@, m)
        && lanes_ok(p.1@, m) && (b.buses.get_spec(k) matches Some(v) && v@.len() == p.0@.len() && v@.len() == p.1@.len()) by {
        if let Some(p) = b.bus_side_regs.get_spec(k) {
            assert forall|i: int| 0 <= i < p.0@.len() implies #[trigger] p.0@[i] < m by {
                assert(lanes_ok(p.0@, n));
            }
            assert forall|i: int| 0 <= i < p.1@.len() implies #[trigger] p.1@[i] < m by {
                assert(lanes_ok(p.1@, n));
            }
        }
    }
    assert forall|i: int| 0 <= i < b.inputs@.len() implies shape_ok((#[trigger] b.inputs@[i]).1, m) by {
        lemma_shape_grow(b.inputs@[i].1, n, m);
    }
    assert forall|i: int| 0 <= i < b.outs@.len() implies shape_ok((#[trigger] b.outs@[i]).1, m) by {
        lemma_shape_grow(b.outs@[i].1, n, m);
    }
}

/// The node conditions of a body only depend on its points, buses, regs and ports.
pub proof fn lemma_nodes_ok_same(a: &Body, b: &Body, n: nat)
    requires
        a.nodes_ok(n),
        b.scope == a.scope,
        b.side_regs == a.side_regs,
        b.buses == a.buses,
        b.bus_side_regs == a.bus_side_regs,
        b.inputs == a.inputs,
        b.outs == a.outs,
    ensures
        b.nodes_ok(n),
{
    assert forall|k: Seq<char>| #[trigger] b.scope.get_spec(k) matches Some(x) ==> x < n by {
        assert(a.scope.get_spec(k) == b.scope.get_spec(k));
    }
    assert forall|k: Seq<char>| #[trigger] b.side_regs.get_spec(k) matches Some(p) ==> p.0 < n && p.1 < n by {
        assert(a.side_regs.get_spec(k) == b.side_regs.get_spec(k));
    }
    assert forall|k: Seq<char>| #[trigger] b.buses.get_spec(k) matches Some(v) ==> v@.len() <= i32::MAX && lanes_ok(v@, n) by {
        assert(a.buses.get_spec(k) == b.buses.get_spec(k));
    }
    assert forall|k: Seq<char>| #[trigger] b.bus_side_regs.get_spec(k) matches Some(p) ==> lanes_ok(p.0@, n) && lanes_ok(p.1@, n)
        && (b.buses.get_spec(k) matches Some(v) && v@.len() == p.0@.len() && v@.len() == p.1@.len()) by {
        assert(a.bus_side_regs.get_spec(k) == b.bus_side_regs.get_spec(k));
        assert(a.buses.get_spec(k) == b.buses.get_spec(k));
    }
    assert forall|i: int| 0 <= i < b.inputs@.len() implies shape_ok((#[trigger] b.inputs@[i]).1, n) by {
        assert(a.inputs@[i] == b.inputs@[i]);
    }
    assert forall|i: int| 0 <= i < b.outs@.len() implies shape_ok((#[trigger] b.outs@[i]).1, n) by {
        assert(a.outs@[i] == b.outs@[i]);
    }
}

/// A port shape stays valid as the circuit grows.
pub proof fn lemma_shape_grow(s: PortShape, n: nat, m: nat)
    requires
        shape_ok(s, n),
        n <= m,
    ensures
        shape_ok(s, m),
{
    if let PortShape::Bus(v) = s {
        assert forall|i: int| 0 <= i < v@.len() implies #[trigger] v@[i] < m by {}
    }
}

/// Names of the ports of `ps` in order whose direction is `input`.
pub open spec fn port_names(ps: Seq<Port>, input: bool) -> Seq<Seq<char>>
    decreases ps.len(),
{
    if ps.len() == 0 {
        seq![]
    } else {
        let rest = port_names(ps.drop_last(), input);
        if ps.last().input == input {
            rest.push(ps.last().name@)
        } else {
            rest
        }
    }
}

/// Names of a port list.
pub open spec fn ports_names(ps: Seq<(String, PortShape)>) -> Seq<Seq<char>> {
    Seq::new(ps.len(), |i: int| ps[i].0@)
}

/// What every elaboration step keeps: a well-formed circuit that only grows, and the
/// elaboration stack, counter and linted logics.
pub open spec fn kept(a: Elaborator, b: Elaborator) -> bool {
    &&& b.c.wf()
    &&& b.c.cfg == a.c.cfg
    &&& b.c.nodes@.len() >= a.c.nodes@.len()
    &&& b.stack == a.stack
    &&& b.counter == a.counter
    &&& b.linted == a.linted
}

/// A body step leaves the postponed statements alone.
pub open spec fn same_pending(a: Body, b: Body) -> bool {
    &&& b.instances == a.instances
    &&& b.chains == a.chains
    &&& b.inputs == a.inputs
    &&& b.outs == a.outs
}

/// Positions among the first `n` statements of the logic instances, in order.
pub open spec fn instance_positions(s: Seq<LogicStmt>, n: int) -> Seq<usize>
    decreases n,
{
    if n <= 0 {
        seq![]
    } else {
        instance_positions(s, n - 1) + if s[n - 1] is Instance {
            seq![(n - 1) as usize]
        } else {
            seq![]
        }
    }
}

/// Positions among the first `n` statements of the anonymous chains, in order.
pub open spec fn chain_positions(s: Seq<LogicStmt>, n: int) -> Seq<usize>
    decreases n,
{
    if n <= 0 {
        seq![]
    } else {
        chain_positions(s, n - 1) + if s[n - 1] is Chain {
            seq![(n - 1) as usize]
        } else {
            seq![]
        }
    }
}

/// Node `id` is a fresh port point: its own representative, of `kind`, marked as an output
/// port exactly when `out`, with no incoming link.
pub open spec fn port_node(c: Circuit, id: int, kind: NodeKind, out: bool) -> bool {
    &&& 0 <= id < c.nodes@.len()
    &&& c.root(id) == id
    &&& c.nodes@[id].kind == kind
    &&& c.nodes@[id].is_out_port == out
    &&& !c.nodes@[id].has_incoming
}

/// Every scalar port among `ps` is a fresh port point of `kind` (output marks as `out`).
pub open spec fn scalar_port_nodes(c: Circuit, ps: Seq<(String, PortShape)>, kind: NodeKind, out: bool) -> bool {
    forall|i: int| 0 <= i < ps.len() ==> ((#[trigger] ps[i]).1 matches PortShape::Scalar(id) ==> port_node(c, id as int, kind, out))
}

proof fn lemma_port_nodes_kept(c0: Circuit, c1: Circuit, ps: Seq<(String, PortShape)>, kind: NodeKind, out: bool)
    requires
        scalar_port_nodes(c0, ps, kind, out),
        c1.nodes@.len() >= c0.nodes@.len(),
        forall|x: int| 0 <= x < c0.nodes@.len() ==> c1.nodes@[x] == c0.nodes@[x] && c1.root(x) == c0.root(x),
    ensures
        scalar_port_nodes(c1, ps, kind, out),
{
    assert forall|i: int| 0 <= i < ps.len() implies ((#[trigger] ps[i]).1 matches PortShape::Scalar(id) ==> port_node(
        c1,
        id as int,
        kind,
        out,
    )) by {
        if let PortShape::Scalar(id) = ps[i].1 {
            assert(port_node(c0, id as int, kind, out));
        }
    }
}

/// Every port is a scalar, and no two ports share a name.
pub open spec fn ports_scalar_distinct(ports: Seq<Port>) -> bool {
    forall|i: int| 0 <= i < ports.len() ==> (#[trigger] ports[i]).width is None && forall|j: int| 0 <= j < i ==> ports[j].name@
        != ports[i].name@
}

/// The arity error of a logic called with `got` input arguments.
pub open spec fn arity_error(l: LogicDef, got: nat, call_line: i32) -> ErrSpec {
    line_err(
        call_line,
        l.name@ + ": expected "@ + uint_text(port_names(l.ports@, true).len(), 10) + " input argument(s), got "@ + uint_text(got, 10),
    )
}

/// Every port is a scalar with a name that is new to the body and to the other ports.
pub open spec fn scalar_ports_fresh(b: Body, ports: Seq<Port>) -> bool {
    forall|i: int| 0 <= i < ports.len() ==> (#[trigger] ports[i]).width is None && !b.scope.has(ports[i].name@) && !b.buses.has(
        ports[i].name@,
    ) && forall|j: int| 0 <= j < i ==> ports[j].name@ != ports[i].name@
}

/// `name` is a non-port reg of the body (not a comparator/repeater reg) whose point is
/// not an input, not an output port, and has no link in or out.
pub open spec fn floating_reg(e: Elaborator, l: LogicDef, b: Body, name: Seq<char>) -> bool {
    &&& !(exists|k: int| 0 <= k < l.ports@.len() && (#[trigger] l.ports@[k]).name@ == name)
    &&& !b.side_regs.has(name)
    &&& b.scope.get_spec(name) matches Some(node) && node < e.c.nodes@.len() && {
        let nd = e.c.nodes@[e.c.root(node as int)];
        nd.kind != NodeKind::Input && !nd.is_out_port && !nd.has_incoming && !nd.has_outgoing
    }
}

/// A `floating-reg` lint is among the warnings from position `base` on.
pub open spec fn has_floating_warning(w: Seq<Warning>, base: int) -> bool {
    exists|j: int| base <= j < w.len() && ((#[trigger] w[j]).rule matches Some(r) && r@ == "floating-reg"@)
}

/// A lint of `rule` is among the warnings from position `base` on.
pub open spec fn has_rule_warning(w: Seq<Warning>, base: int, rule: Seq<char>) -> bool {
    exists|j: int| base <= j < w.len() && ((#[trigger] w[j]).rule matches Some(r) && r@ == rule)
}

proof fn lemma_rule_grow(w0: Seq<Warning>, w1: Seq<Warning>, base: int, rule: Seq<char>)
    requires
        0 <= base,
        has_rule_warning(w0, base, rule),
        w1.len() >= w0.len(),
        w1.subrange(0, w0.len() as int) == w0,
    ensures
        has_rule_warning(w1, base, rule),
{
    let j = choose|j: int| base <= j < w0.len() && ((#[trigger] w0[j]).rule matches Some(r) && r@ == rule);
    assert(w1.subrange(0, w0.len() as int)[j] == w1[j]);
}

proof fn lemma_floating_grow(w0: Seq<Warning>, w1: Seq<Warning>, base: int)
    requires
        0 <= base,
        has_floating_warning(w0, base),
        w1.len() >= w0.len(),
        w1.subrange(0, w0.len() as int) == w0,
    ensures
        has_floating_warning(w1, base),
{
    let j = choose|j: int| base <= j < w0.len() && ((#[trigger] w0[j]).rule matches Some(r) && r@ == "floating-reg"@);
    assert(w1.subrange(0, w0.len() as int)[j] == w1[j]);
}

/// Each argument that meets an input port is a whole reg or port of the body (not a
/// wire), and each of those input ports is one lane wide.
pub open spec fn scalar_args_fit(args: Seq<InstArg>, sub_in: Seq<(String, PortShape)>, b: Body) -> bool {
    forall|k: int| 0 <= k < args.len() && k < sub_in.len() ==> ((#[trigger] args[k]) matches InstArg::Name { name, sel }
        && sel is All && !b.wire_names.has(name@) && b.scope.has(name@)) && crate::interp::shape_width(sub_in[k].1) == 1
}

/// The logics being elaborated, outermost first: no name twice, and every one above the
/// outermost comes from the table (the outermost may be elaborated directly).
pub open spec fn stack_ok(stack: Seq<String>, logics: StrMap<LogicDef>) -> bool {
    &&& strs_view(stack).no_duplicates()
    &&& forall|i: int| 1 <= i < stack.len() ==> logics.has(#[trigger] stack[i]@)
}

/// A valid stack is at most one longer than the table.
pub proof fn lemma_stack_len(stack: Seq<String>, logics: StrMap<LogicDef>)
    requires
        stack_ok(stack, logics),
    ensures
        stack.len() <= logics.entries@.len() + 1,
{
    if stack.len() > 0 {
        let v = strs_view(stack);
        let t = v.skip(1);
        assert forall|i: int, j: int| 0 <= i < t.len() && 0 <= j < t.len() && i != j implies t[i] != t[j] by {
            assert(t[i] == v[i + 1] && t[j] == v[j + 1]);
        }
        assert(t.no_duplicates());
        let keys = Seq::new(logics.entries@.len(), |i: int| logics.entries@[i].0@);
        t.unique_seq_to_set();
        assert(t.to_set().subset_of(keys.to_set())) by {
            assert forall|x: Seq<char>| t.to_set().contains(x) implies keys.to_set().contains(x) by {
                let i = choose|i: int| 0 <= i < t.len() && t[i] == x;
                assert(t[i] == stack[i + 1]@);
                assert(logics.has(x));
                crate::strs::lemma_assoc_idx(logics.entries@, x);
                let j = assoc_idx_of(logics.entries@, x);
                assert(keys[j] == x);
            }
        }
        keys.lemma_cardinality_of_set();
        vstd::seq_lib::seq_to_set_is_finite(keys);
        vstd::set_lib::lemma_len_subset(t.to_set(), keys.to_set());
    }
}

/// Pushing a logic that is not on the stack, from the table unless the stack is empty,
/// keeps it valid, and the stack is never more than one longer than the table: recursive
/// instantiation always ends.
pub proof fn lemma_stack_push(stack: Seq<String>, logics: StrMap<LogicDef>, name: String)
    requires
        stack_ok(stack, logics),
        logics.has(name@) || stack.len() == 0,
        !strs_view(stack).contains(name@),
    ensures
        stack_ok(stack.push(name), logics),
        stack.len() + 1 <= logics.entries@.len() + 1,
{
    let v2 = strs_view(stack.push(name));
    let v1 = strs_view(stack);
    assert(v2 =~= v1.push(name@));
    assert forall|i: int, j: int| 0 <= i < v2.len() && 0 <= j < v2.len() && i != j implies v2[i] != v2[j] by {
        if i == v1.len() {
            assert(v2[j] == v1[j]);
        } else if j == v1.len() {
            assert(v2[i] == v1[i]);
        } else {
            assert(v2[i] == v1[i] && v2[j] == v1[j]);
        }
    }
    assert(v2.no_duplicates());
    let st2 = stack.push(name);
    assert forall|i: int| 1 <= i < st2.len() implies logics.has(#[trigger] st2[i]@) by {
        if i < stack.len() {
            assert(st2[i] == stack[i]);
        }
    }
    lemma_stack_len(st2, logics);
}

spec fn assoc_idx_of<V>(s: Seq<(String, V)>, k: Seq<char>) -> int {
    crate::strs::assoc_idx(s, k).unwrap()
}

/// The strings of `v` joined with `sep`.
fn join_strs(v: &Vec<String>, sep: &str) -> (r: String)
    ensures
        r@ == join(strs_view(v@), sep@),
{
    let mut acc = String::new();
    let mut k: usize = 0;
    proof {
        assert(strs_view(v@.subrange(0, 0)) =~= Seq::<Seq<char>>::empty());
        assert(acc@ =~= join(Seq::<Seq<char>>::empty(), sep@));
    }
    while k < v.len()
        invariant
            k <= v@.len(),
            acc@ == join(strs_view(v@.subrange(0, k as int)), sep@),
        decreases v@.len() - k,
    {
        let ghost items = strs_view(v@.subrange(0, k as int));
        push_joined(&mut acc, k, v[k].as_str(), sep, Ghost(items));
        proof {
            assert(strs_view(v@.subrange(0, k + 1)) =~= items.push(v@[k as int]@));
        }
        k += 1;
    }
    proof {
        assert(v@.subrange(0, v@.len() as int) =~= v@);
    }
    acc
}

/// What every elaboration step that may instantiate logics keeps: a well-formed circuit
/// that only grows.
pub open spec fn grew(a: Elaborator, b: Elaborator) -> bool {
    &&& b.c.wf()
    &&& b.c.cfg == a.c.cfg
    &&& b.c.nodes@.len() >= a.c.nodes@.len()
}

/// The port lists of an elaborated logic name only nodes of a circuit with `n` nodes.
pub open spec fn ports_fit(ins: Seq<(String, PortShape)>, outs: Seq<(String, PortShape)>, n: nat) -> bool {
    &&& forall|i: int| 0 <= i < ins.len() ==> shape_ok((#[trigger] ins[i]).1, n)
    &&& forall|i: int| 0 <= i < outs.len() ==> shape_ok((#[trigger] outs[i]).1, n)
}

/// Port shapes whose lanes are nodes of a circuit with `n` nodes.
pub open spec fn shapes_ok(v: Seq<PortShape>, n: nat) -> bool {
    forall|i: int| 0 <= i < v.len() ==> shape_ok(#[trigger] v[i], n)
}

/// Port shapes stay valid as the circuit grows.
pub proof fn lemma_shapes_grow(v: Seq<PortShape>, n: nat, m: nat)
    requires
        shapes_ok(v, n),
        n <= m,
    ensures
        shapes_ok(v, m),
{
    assert forall|i: int| 0 <= i < v.len() implies shape_ok(#[trigger] v[i], m) by {
        lemma_shape_grow(v[i], n, m);
    }
}

/// Port lists stay valid as the circuit grows.
pub proof fn lemma_ports_grow(ins: Seq<(String, PortShape)>, outs: Seq<(String, PortShape)>, n: nat, m: nat)
    requires
        ports_fit(ins, outs, n),
        n <= m,
    ensures
        ports_fit(ins, outs, m),
{
    assert forall|i: int| 0 <= i < ins.len() implies shape_ok((#[trigger] ins[i]).1, m) by {
        lemma_shape_grow(ins[i].1, n, m);
    }
    assert forall|i: int| 0 <= i < outs.len() implies shape_ok((#[trigger] outs[i]).1, m) by {
        lemma_shape_grow(outs[i].1, n, m);
    }
}

/// The lanes of a port shape.
pub open spec fn shape_lanes(s: PortShape) -> Seq<usize> {
    match s {
        PortShape::Scalar(n) => seq![n],
        PortShape::Bus(v) => v@,
    }
}

/// Node `x` is driven: its point has an incoming link or a fixed strength.
pub open spec fn lane_driven(c: Circuit, x: int) -> bool {
    c.nodes@[c.root(x)].has_incoming || c.nodes@[c.root(x)].kind == NodeKind::Const
}

/// Every lane of port `p` is driven.
pub open spec fn port_driven(c: Circuit, p: (String, PortShape)) -> bool {
    forall|j: int| 0 <= j < shape_lanes(p.1).len() ==> #[trigger] lane_driven(c, shape_lanes(p.1)[j] as int)
}

/// Every lane of every output port is driven.
pub open spec fn outs_driven(c: Circuit, outs: Seq<(String, PortShape)>) -> bool {
    forall|i: int, j: int| 0 <= i < outs.len() && 0 <= j < shape_lanes(outs[i].1).len() ==> #[trigger] lane_driven(
        c,
        shape_lanes(outs[i].1)[j] as int,
    )
}

/// The keys of a table, in order.
fn keys_of<V>(m: &StrMap<V>) -> (r: Vec<String>)
    ensures
        r@.len() == m.entries@.len(),
        forall|i: int| 0 <= i < r@.len() ==> (#[trigger] r@[i])@ == m.entries@[i].0@,
{
    let mut out: Vec<String> = Vec::new();
    let mut i: usize = 0;
    while i < m.entries.len()
        invariant
            i <= m.entries@.len(),
            out@.len() == i,
            forall|j: int| 0 <= j < i ==> (#[trigger] out@[j])@ == m.entries@[j].0@,
        decreases m.entries@.len() - i,
    {
        out.push(m.entries[i].0.clone());
        i += 1;
    }
    out
}

/// Whether `name` is the name of a port of `l`.
fn is_port_name(l: &LogicDef, name: &str) -> (r: bool)
    ensures
        r == exists|k: int| 0 <= k < l.ports@.len() && (#[trigger] l.ports@[k]).name@ == name@,
{
    let mut k: usize = 0;
    while k < l.ports.len()
        invariant
            k <= l.ports@.len(),
            forall|j: int| 0 <= j < k ==> (#[trigger] l.ports@[j]).name@ != name@,
        decreases l.ports@.len() - k,
    {
        if str_eq(l.ports[k].name.as_str(), name) {
            return true;
        }
        k += 1;
    }
    false
}

/// The line of the first of `ports` named `name` (0 if none).
pub open spec fn first_port_line(ports: Seq<Port>, name: Seq<char>) -> i32
    decreases ports.len(),
{
    if ports.len() == 0 {
        0
    } else if ports[0].name@ == name {
        ports[0].line
    } else {
        first_port_line(ports.drop_first(), name)
    }
}

/// The line of the first port of `l` named `name` (0 if none).
fn port_line(l: &LogicDef, name: &str) -> (r: i32)
    ensures
        r == first_port_line(l.ports@, name@),
{
    assert(l.ports@.subrange(0, l.ports@.len() as int) =~= l.ports@);
    let mut k: usize = 0;
    while k < l.ports.len()
        invariant
            k <= l.ports@.len(),
            first_port_line(l.ports@, name@) == first_port_line(l.ports@.subrange(k as int, l.ports@.len() as int), name@),
        decreases l.ports@.len() - k,
    {
        let ghost rest = l.ports@.subrange(k as int, l.ports@.len() as int);
        assert(rest.drop_first() =~= l.ports@.subrange(k + 1, l.ports@.len() as int));
        assert(rest[0] == l.ports@[k as int]);
        if str_eq(l.ports[k].name.as_str(), name) {
            return l.ports[k].line;
        }
        k += 1;
    }
    0
}

/// Whether node `x` occurs in `v`.
fn has_node(v: &Vec<usize>, x: usize) -> (r: bool)
    ensures
        r == v@.contains(x),
{
    let mut k: usize = 0;
    while k < v.len()
        invariant
            k <= v@.len(),
            forall|j: int| 0 <= j < k ==> v@[j] != x,
        decreases v@.len() - k,
    {
        if v[k] == x {
            return true;
        }
        k += 1;
    }
    false
}

impl Elaborator {
    /// A fresh elaboration of `c`, with the logics already linted.
    pub fn new(c: Circuit, linted: StrSet) -> (r: Elaborator)
        ensures
            r.c == c,
            r.linted == linted,
            r.stack@.len() == 0,
            r.counter == 0,
            r.warnings@.len() == 0,
    {
        Elaborator { c, stack: Vec::new(), counter: 0, linted, warnings: Vec::new() }
    }

    /// A node whose name is `prefix.name` followed by `suffix`.
    fn node3(&mut self, prefix: &str, name: &str, suffix: &str, kind: NodeKind) -> (r: usize)
        requires
            old(self).c.wf(),
        ensures
            final(self).c.wf(),
            final(self).c.cfg == old(self).c.cfg,
            r == old(self).c.nodes@.len(),
            final(self).c.nodes@.len() == old(self).c.nodes@.len() + 1,
            final(self).c.nodes@.last().kind == kind,
            final(self).c.nodes@.last().is_out_port == false,
            final(self).c.nodes@.drop_last() == old(self).c.nodes@,
            final(self).c.seqs == old(self).c.seqs,
            final(self).stack == old(self).stack,
            final(self).linted == old(self).linted,
            final(self).counter == old(self).counter,
    {
        let nm = cat4(prefix, ".", name, suffix);
        let r = self.c.new_node(nm, kind);
        proof {
            assert(self.c.nodes@.drop_last() =~= old(self).c.nodes@);
        }
        r
    }

    /// Creates the port nodes of `l` (lanes for a bus port; `Input` nodes for the inputs of
    /// a top-level logic, plain nodes otherwise; output nodes are marked as output ports)
    /// and records the inputs and outputs in declaration order. A port name used twice is
    /// refused.
    fn elab_ports(&mut self, l: &LogicDef, prefix: &str, top_level: bool, param_env: &StrMap<i64>, defines: &StrMap<i64>, b: &mut Body) -> (r: RvResult<()>)
        requires
            old(self).c.wf(),
            old(b).nodes_ok(old(self).c.nodes@.len()),
            old(b).inputs@.len() == 0,
            old(b).outs@.len() == 0,
        ensures
            final(self).c.wf(),
            final(self).c.cfg == old(self).c.cfg,
            final(self).c.nodes@.len() >= old(self).c.nodes@.len(),
            final(b).nodes_ok(final(self).c.nodes@.len()),
            final(self).stack == old(self).stack,
            final(self).counter == old(self).counter,
            final(self).linted == old(self).linted,
            final(self).warnings == old(self).warnings,
            final(b).wire_names == old(b).wire_names,
            final(b).instances == old(b).instances,
            final(b).chains == old(b).chains,
            r is Ok ==> ports_names(final(b).inputs@) == port_names(l.ports@, true),
            r is Ok ==> ports_names(final(b).outs@) == port_names(l.ports@, false),
            scalar_ports_fresh(*old(b), l.ports@) ==> r is Ok,
            final(b).wire_seq == old(b).wire_seq,
            scalar_port_nodes(final(self).c, final(b).inputs@, if top_level { NodeKind::Input } else { NodeKind::Plain }, false),
            scalar_port_nodes(final(self).c, final(b).outs@, NodeKind::Plain, true),
            (forall|k: int| 0 <= k < l.ports@.len() ==> (#[trigger] l.ports@[k]).width is None) ==> (forall|k: int| 0 <= k
                < final(b).inputs@.len() ==> (#[trigger] final(b).inputs@[k]).1 is Scalar) && (forall|k: int| 0 <= k
                < final(b).outs@.len() ==> (#[trigger] final(b).outs@[k]).1 is Scalar),
    {
        let ghost scal = forall|k: int| 0 <= k < l.ports@.len() ==> (#[trigger] l.ports@[k]).width is None;
        let ghost fresh = scalar_ports_fresh(*old(b), l.ports@);
        let mut i: usize = 0;
        while i < l.ports.len()
            invariant
                scal == forall|k: int| 0 <= k < l.ports@.len() ==> (#[trigger] l.ports@[k]).width is None,
                scal ==> (forall|k: int| 0 <= k < b.inputs@.len() ==> (#[trigger] b.inputs@[k]).1 is Scalar) && (forall|k: int|
                    0 <= k < b.outs@.len() ==> (#[trigger] b.outs@[k]).1 is Scalar),
                scalar_port_nodes(self.c, b.inputs@, if top_level { NodeKind::Input } else { NodeKind::Plain }, false),
                scalar_port_nodes(self.c, b.outs@, NodeKind::Plain, true),
                b.wire_seq == old(b).wire_seq,
                fresh == scalar_ports_fresh(*old(b), l.ports@),
                fresh ==> b.buses == old(b).buses,
                fresh ==> forall|q: Seq<char>| #[trigger] b.scope.has(q) == (old(b).scope.has(q) || exists|j: int| 0 <= j < i
                    && (#[trigger] l.ports@[j]).name@ == q),
                self.c.wf(),
                self.c.cfg == old(self).c.cfg,
                self.c.nodes@.len() >= old(self).c.nodes@.len(),
                b.nodes_ok(self.c.nodes@.len()),
                self.stack == old(self).stack,
                self.counter == old(self).counter,
                self.linted == old(self).linted,
                self.warnings == old(self).warnings,
                b.wire_names == old(b).wire_names,
                b.instances == old(b).instances,
                b.chains == old(b).chains,
                i <= l.ports@.len(),
                ports_names(b.inputs@) == port_names(l.ports@.subrange(0, i as int), true),
                ports_names(b.outs@) == port_names(l.ports@.subrange(0, i as int), false),
            decreases l.ports@.len() - i,
        {
            let p = &l.ports[i];
            if b.scope.contains_key(p.name.as_str()) || b.buses.contains_key(p.name.as_str()) {
                proof {
                    if fresh && !old(b).scope.has(p.name@) && b.scope.has(p.name@) {
                        let j = choose|j: int| 0 <= j < i && (#[trigger] l.ports@[j]).name@ == p.name@;
                        assert(l.ports@[j].name@ != l.ports@[i as int].name@);
                    }
                }
                return fail(p.line, cat2("duplicate port name: ", p.name.as_str()));
            }
            let kind = if p.input && top_level { NodeKind::Input } else { NodeKind::Plain };
            let ghost n0 = self.c.nodes@.len();
            let ghost c0 = self.c;
            let shape = match &p.width {
                Some(we) => {
                    let w = match resolve_width(we, param_env, defines, p.line) {
                        Ok(w) => w,
                        Err(x) => return Err(x),
                    };
                    let mut lanes: Vec<usize> = Vec::new();
                    let mut k: i32 = 0;
                    while k < w
                        invariant
                            b.wire_seq == old(b).wire_seq,
                            self.c.nodes@.len() >= c0.nodes@.len(),
                            forall|x: int| 0 <= x < c0.nodes@.len() ==> #[trigger] self.c.nodes@[x] == c0.nodes@[x],
                            forall|x: int| 0 <= x < c0.nodes@.len() ==> #[trigger] self.c.root(x) == c0.root(x),
                            self.c.wf(),
                            self.c.cfg == old(self).c.cfg,
                            self.c.nodes@.len() >= n0,
                            n0 >= old(self).c.nodes@.len(),
                            b.nodes_ok(n0),
                            0 <= k <= w,
                            lanes@.len() == k,
                            lanes_ok(lanes@, self.c.nodes@.len()),
                            self.stack == old(self).stack,
                            self.counter == old(self).counter,
                            self.linted == old(self).linted,
                            self.warnings == old(self).warnings,
                        decreases w - k,
                    {
                        let t = int_str(k as i64);
                        let nm = cat5(prefix, ".", p.name.as_str(), "[", t.as_str());
                        let ghost c2 = self.c;
                        let id = self.c.new_node(cat2(nm.as_str(), "]"), kind);
                        let ghost c1 = self.c;
                        if !p.input {
                            self.c.set_attrs(id, kind, 0, false, false, true);
                            proof {
                                assert forall|x: int| 0 <= x < c1.nodes@.len() implies self.c.root(x) == c1.root(x) by {
                                    assert(self.c.par == c1.par && self.c.lvl == c1.lvl);
                                }
                            }
                        }
                        proof {
                            assert forall|x: int| 0 <= x < c0.nodes@.len() implies self.c.nodes@[x] == c0.nodes@[x] && self.c.root(x)
                                == c0.root(x) by {
                                assert(c2.nodes@[x] == c0.nodes@[x] && c2.root(x) == c0.root(x));
                                assert(c1.nodes@[x] == c2.nodes@[x]);
                                assert(c1.root(x) == c2.root(x));
                            }
                        }
                        lanes.push(id);
                        k += 1;
                    }
                    proof {
                        lemma_nodes_ok_grow(b, n0, self.c.nodes@.len());
                    }
                    let ghost b0 = *b;
                    b.buses.insert(p.name.clone(), lanes.clone());
                    proof {
                        assert forall|q: Seq<char>| #[trigger] b.buses.get_spec(q) matches Some(v) ==> v@.len() <= i32::MAX
                            && lanes_ok(v@, self.c.nodes@.len()) by {
                            if q != p.name@ {
                                assert(b.buses.get_spec(q) == b0.buses.get_spec(q));
                            }
                        }
                        assert forall|q: Seq<char>| #[trigger] b.bus_side_regs.get_spec(q) matches Some(pr) ==> lanes_ok(pr.0@, self.c.nodes@.len())
                            && lanes_ok(pr.1@, self.c.nodes@.len()) && (b.buses.get_spec(q) matches Some(v) && v@.len() == pr.0@.len()
                            && v@.len() == pr.1@.len()) by {
                            if q == p.name@ && b0.bus_side_regs.get_spec(q) is Some {
                                assert(b0.buses.has(q));
                            }
                            if q != p.name@ {
                                assert(b.buses.get_spec(q) == b0.buses.get_spec(q));
                            }
                        }
                    }
                    PortShape::Bus(lanes)
                },
                None => {
                    let id = self.c.new_node(cat3(prefix, ".", p.name.as_str()), kind);
                    let ghost c1 = self.c;
                    if !p.input {
                        self.c.set_attrs(id, kind, 0, false, false, true);
                        proof {
                            assert forall|x: int| 0 <= x < c1.nodes@.len() implies self.c.root(x) == c1.root(x) by {
                                assert(self.c.par == c1.par && self.c.lvl == c1.lvl);
                            }
                        }
                    }
                    proof {
                        assert forall|x: int| 0 <= x < c0.nodes@.len() implies self.c.nodes@[x] == c0.nodes@[x] && self.c.root(x)
                            == c0.root(x) by {
                            assert(c1.nodes@[x] == c0.nodes@[x]);
                        }
                        assert(port_node(self.c, id as int, kind, !p.input));
                    }
                    proof {
                        lemma_nodes_ok_grow(b, n0, self.c.nodes@.len());
                    }
                    let ghost b0 = *b;
                    b.scope.insert(p.name.clone(), id);
                    proof {
                        assert forall|q: Seq<char>| #[trigger] b.scope.get_spec(q) matches Some(x) ==> x < self.c.nodes@.len() by {
                            if q != p.name@ {
                                assert(b.scope.get_spec(q) == b0.scope.get_spec(q));
                            }
                        }
                        if fresh {
                            assert forall|q: Seq<char>| #[trigger] b.scope.has(q) == (old(b).scope.has(q) || exists|j: int| 0 <= j < i + 1
                                && (#[trigger] l.ports@[j]).name@ == q) by {
                                if q == p.name@ {
                                    assert(l.ports@[i as int].name@ == q);
                                } else {
                                    assert(b.scope.get_spec(q) == b0.scope.get_spec(q));
                                    assert(b0.scope.has(q) == (old(b).scope.has(q) || exists|j: int| 0 <= j < i
                                        && (#[trigger] l.ports@[j]).name@ == q));
                                    if exists|j: int| 0 <= j < i + 1 && (#[trigger] l.ports@[j]).name@ == q {
                                        let j = choose|j: int| 0 <= j < i + 1 && (#[trigger] l.ports@[j]).name@ == q;
                                        assert(j < i);
                                    }
                                }
                            }
                        }
                    }
                    PortShape::Scalar(id)
                },
            };
            let ghost li = l.ports@.subrange(0, i as int);
            let ghost lj = l.ports@.subrange(0, i + 1);
            proof {
                assert(lj.drop_last() =~= li);
                assert(lj.last() == *p);
            }
            proof {
                lemma_port_nodes_kept(c0, self.c, b.inputs@, if top_level { NodeKind::Input } else { NodeKind::Plain }, false);
                lemma_port_nodes_kept(c0, self.c, b.outs@, NodeKind::Plain, true);
            }
            if p.input {
                let ghost v0 = b.inputs@;
                b.inputs.push((p.name.clone(), shape));
                proof {
                    if scal {
                        assert(l.ports@[i as int].width is None);
                        assert forall|k: int| 0 <= k < b.inputs@.len() implies (#[trigger] b.inputs@[k]).1 is Scalar by {
                            if k < v0.len() {
                                assert(b.inputs@[k] == v0[k]);
                            }
                        }
                    }
                    assert forall|j: int| 0 <= j < b.inputs@.len() implies ((#[trigger] b.inputs@[j]).1 matches PortShape::Scalar(id)
                        ==> port_node(self.c, id as int, if top_level { NodeKind::Input } else { NodeKind::Plain }, false)) by {
                        if j < v0.len() {
                            assert(b.inputs@[j] == v0[j]);
                        }
                    }
                }
                proof {
                    assert(ports_names(b.inputs@) =~= ports_names(v0).push(p.name@));
                    assert forall|j: int| 0 <= j < b.inputs@.len() implies shape_ok((#[trigger] b.inputs@[j]).1, self.c.nodes@.len()) by {
                        if j < v0.len() {
                            assert(b.inputs@[j] == v0[j]);
                        }
                    }
                }
            } else {
                let ghost v0 = b.outs@;
                b.outs.push((p.name.clone(), shape));
                proof {
                    if scal {
                        assert(l.ports@[i as int].width is None);
                        assert forall|k: int| 0 <= k < b.outs@.len() implies (#[trigger] b.outs@[k]).1 is Scalar by {
                            if k < v0.len() {
                                assert(b.outs@[k] == v0[k]);
                            }
                        }
                    }
                    assert forall|j: int| 0 <= j < b.outs@.len() implies ((#[trigger] b.outs@[j]).1 matches PortShape::Scalar(id)
                        ==> port_node(self.c, id as int, NodeKind::Plain, true)) by {
                        if j < v0.len() {
                            assert(b.outs@[j] == v0[j]);
                        }
                    }
                }
                proof {
                    assert(ports_names(b.outs@) =~= ports_names(v0).push(p.name@));
                    assert forall|j: int| 0 <= j < b.outs@.len() implies shape_ok((#[trigger] b.outs@[j]).1, self.c.nodes@.len()) by {
                        if j < v0.len() {
                            assert(b.outs@[j] == v0[j]);
                        }
                    }
                }
            }
            i += 1;
        }
        proof {
            assert(l.ports@.subrange(0, l.ports@.len() as int) =~= l.ports@);
        }
        Ok(())
    }

    /// Declares reg `name` (`reg`, `const reg`, `mutable reg`, or a bus reg `reg[W]`): a
    /// plain point, a point with an element or a const strength, a comparator or lockable
    /// repeater reg (back, side and out nodes), a bus of plain lanes, or a bus of
    /// comparator/repeater lanes.
    fn decl_reg(
        &mut self,
        line: i32,
        name: &String,
        qual: Qual,
        init: &Option<RegInit>,
        width: &Option<WidthExpr>,
        prefix: &str,
        param_env: &StrMap<i64>,
        defines: &StrMap<i64>,
        b: &mut Body,
    ) -> (r: RvResult<()>)
        requires
            old(self).c.wf(),
            old(b).nodes_ok(old(self).c.nodes@.len()),
            init matches Some(ri) ==> (ri.tok is None ==> ri.strength >= 0),
        ensures
            kept(*old(self), *final(self)),
            final(b).nodes_ok(final(self).c.nodes@.len()),
            same_pending(*old(b), *final(b)),
            final(b).wire_names == old(b).wire_names,
            old(b).taken(name@) ==> r is Err,
            r is Ok ==> final(b).taken(name@),
            (!old(b).taken(name@) && init is None && width is None && qual != Qual::Const) ==> r is Ok && final(b).scope.has(name@)
                && final(self).c.nodes@.len() == old(self).c.nodes@.len() + 1,
    {
        if b.is_taken(name.as_str()) {
            return fail(line, cat2("duplicate name: ", name.as_str()));
        }
        b.decl_lines.insert(name.clone(), line);
        let ghost n0 = self.c.nodes@.len();
        if let Some(we) = width {
            if qual != Qual::Plain {
                return fail(line, own("a bus reg must be plain (const/mutable not supported yet)"));
            }
            let w = match resolve_width(we, param_env, defines, line) {
                Ok(w) => w,
                Err(x) => return Err(x),
            };
            if let Some(ri) = init {
                if ri.strength >= 0 {
                    return fail(
                        line,
                        own("a bus reg cannot take a signal strength; only a comparator/repeater element assignment is allowed (e.g. `reg[4] m = r;`)"),
                    );
                }
                let tok = match &ri.tok {
                    Some(t) => t.as_str(),
                    None => return Ok(()),
                };
                let comp_kind = match comparator_mode(tok, line) {
                    Ok(k) => k,
                    Err(x) => return Err(x),
                };
                let rep_delay = if comp_kind.is_none() {
                    match repeater_delay(tok, line) {
                        Ok(d) => d,
                        Err(x) => return Err(x),
                    }
                } else {
                    None
                };
                if comp_kind.is_none() && rep_delay.is_none() {
                    return fail(line, cat3("a bus reg initializer must be a comparator or repeater element (cc/cd/r/r1-r4): \"", tok, "\""));
                }
                if rep_delay == Some(0i32) {
                    return fail(line, cat3("a 0-tick repeater (r0) cannot be a lockable reg; place it inline in a chain (e.g. 'x - r0 - ", name.as_str(), ";')"));
                }
                let mut backs: Vec<usize> = Vec::new();
                let mut sides: Vec<usize> = Vec::new();
                let mut outs: Vec<usize> = Vec::new();
                let mut k: i32 = 0;
                while k < w
                    invariant
                        kept(*old(self), *self),
                        b.nodes_ok(n0),
                        n0 == old(self).c.nodes@.len(),
                        0 <= k <= w,
                        backs@.len() == k && sides@.len() == k && outs@.len() == k,
                        lanes_ok(backs@, self.c.nodes@.len()),
                        lanes_ok(sides@, self.c.nodes@.len()),
                        lanes_ok(outs@, self.c.nodes@.len()),
                        comp_kind matches Some(ck) ==> ck == SeqKind::CompCmp || ck == SeqKind::CompSub,
                        comp_kind is None ==> (rep_delay matches Some(d) && 1 <= d),
                    decreases w - k,
                {
                    let t = int_str(k as i64);
                    let lane = cat3("[", t.as_str(), "]");
                    let back = self.node3(prefix, name.as_str(), cat2(lane.as_str(), "#back").as_str(), NodeKind::Plain);
                    let side = self.node3(prefix, name.as_str(), cat2(lane.as_str(), "#side").as_str(), NodeKind::Plain);
                    let out = self.node3(prefix, name.as_str(), lane.as_str(), NodeKind::Plain);
                    let label = cat4(prefix, ".", name.as_str(), lane.as_str());
                    match comp_kind {
                        Some(ck) => self.c.add_comp(ck, back, Some(side), out, label, line),
                        None => {
                            let d = match rep_delay {
                                Some(d) => d,
                                None => 1,
                            };
                            self.c.add_rep_lock(d, back, side, out, label, line);
                        },
                    }
                    backs.push(back);
                    sides.push(side);
                    outs.push(out);
                    k += 1;
                }
                proof {
                    lemma_nodes_ok_grow(b, n0, self.c.nodes@.len());
                }
                let ghost b0 = *b;
                b.buses.insert(name.clone(), outs);
                b.bus_side_regs.insert(name.clone(), (backs, sides));
                proof {
                    let n = self.c.nodes@.len();
                    assert forall|q: Seq<char>| #[trigger] b.buses.get_spec(q) matches Some(v) ==> v@.len() <= i32::MAX && lanes_ok(v@, n) by {
                        if q != name@ {
                            assert(b.buses.get_spec(q) == b0.buses.get_spec(q));
                        }
                    }
                    assert forall|q: Seq<char>| #[trigger] b.bus_side_regs.get_spec(q) matches Some(pr) ==> lanes_ok(pr.0@, n)
                        && lanes_ok(pr.1@, n) && (b.buses.get_spec(q) matches Some(v) && v@.len() == pr.0@.len() && v@.len()
                        == pr.1@.len()) by {
                        if q != name@ {
                            assert(b.bus_side_regs.get_spec(q) == b0.bus_side_regs.get_spec(q));
                            assert(b.buses.get_spec(q) == b0.buses.get_spec(q));
                        }
                    }
                    assert(b.buses.get_spec(name@) is Some);
                assert(b.buses.has(name@));
                }
                return Ok(());
            }
            let mut lanes: Vec<usize> = Vec::new();
            let mut k: i32 = 0;
            while k < w
                invariant
                    kept(*old(self), *self),
                    b.nodes_ok(n0),
                    n0 == old(self).c.nodes@.len(),
                    0 <= k <= w,
                    lanes@.len() == k,
                    lanes_ok(lanes@, self.c.nodes@.len()),
                decreases w - k,
            {
                let t = int_str(k as i64);
                let lane = cat3("[", t.as_str(), "]");
                let id = self.node3(prefix, name.as_str(), lane.as_str(), NodeKind::Plain);
                lanes.push(id);
                k += 1;
            }
            proof {
                lemma_nodes_ok_grow(b, n0, self.c.nodes@.len());
            }
            let ghost b0 = *b;
            b.buses.insert(name.clone(), lanes);
            proof {
                let n = self.c.nodes@.len();
                assert forall|q: Seq<char>| #[trigger] b.buses.get_spec(q) matches Some(v) ==> v@.len() <= i32::MAX && lanes_ok(v@, n) by {
                    if q != name@ {
                        assert(b.buses.get_spec(q) == b0.buses.get_spec(q));
                    }
                }
                assert forall|q: Seq<char>| #[trigger] b.bus_side_regs.get_spec(q) matches Some(pr) ==> lanes_ok(pr.0@, n)
                    && lanes_ok(pr.1@, n) && (b.buses.get_spec(q) matches Some(v) && v@.len() == pr.0@.len() && v@.len()
                    == pr.1@.len()) by {
                    if q == name@ && b0.bus_side_regs.get_spec(q) is Some {
                        assert(b0.buses.has(q));
                    }
                    if q != name@ {
                        assert(b.buses.get_spec(q) == b0.buses.get_spec(q));
                    }
                }
                assert(b.buses.get_spec(name@) is Some);
                assert(b.buses.has(name@));
            }
            return Ok(());
        }
        let init_tok: Option<&str> = match init {
            Some(ri) => if ri.strength < 0 {
                match &ri.tok {
                    Some(t) => Some(t.as_str()),
                    None => None,
                }
            } else {
                None
            },
            None => None,
        };
        let comp_kind = match init_tok {
            Some(t) => match comparator_mode(t, line) {
                Ok(k) => k,
                Err(x) => return Err(x),
            },
            None => None,
        };
        let rep_delay = if comp_kind.is_none() {
            match init_tok {
                Some(t) => match repeater_delay(t, line) {
                    Ok(d) => d,
                    Err(x) => return Err(x),
                },
                None => None,
            }
        } else {
            None
        };
        let ghost b0 = *b;
        if comp_kind.is_some() || rep_delay.is_some() {
            let ri_strength = match init {
                Some(ri) => ri.strength,
                None => -1,
            };
            let what = if comp_kind.is_some() { "comparator" } else { "repeater" };
            if qual != Qual::Plain {
                return fail(line, cat2(what, " reg must be plain (const/mutable not allowed)"));
            }
            if ri_strength >= 0 {
                return fail(line, cat2(what, " reg cannot take a signal strength"));
            }
            if rep_delay == Some(0i32) {
                return fail(line, cat3("a 0-tick repeater (r0) cannot be a lockable reg; place it inline in a chain (e.g. 'x - r0 - ", name.as_str(), ";')"));
            }
            let back = self.node3(prefix, name.as_str(), "#back", NodeKind::Plain);
            let side = self.node3(prefix, name.as_str(), "#side", NodeKind::Plain);
            let out = self.node3(prefix, name.as_str(), "", NodeKind::Plain);
            let label = cat3(prefix, ".", name.as_str());
            match comp_kind {
                Some(ck) => self.c.add_comp(ck, back, Some(side), out, label, line),
                None => {
                    let d = match rep_delay {
                        Some(d) => d,
                        None => 1,
                    };
                    self.c.add_rep_lock(d, back, side, out, label, line);
                },
            }
            proof {
                lemma_nodes_ok_grow(b, n0, self.c.nodes@.len());
            }
            let ghost b1 = *b;
            b.scope.insert(name.clone(), out);
            b.side_regs.insert(name.clone(), (back, side));
            b.qual_of.insert(name.clone(), Qual::Plain);
            proof {
                let n = self.c.nodes@.len();
                assert forall|q: Seq<char>| #[trigger] b.scope.get_spec(q) matches Some(x) ==> x < n by {
                    if q != name@ {
                        assert(b.scope.get_spec(q) == b1.scope.get_spec(q));
                    }
                }
                assert forall|q: Seq<char>| #[trigger] b.side_regs.get_spec(q) matches Some(pr) ==> pr.0 < n && pr.1 < n by {
                    if q != name@ {
                        assert(b.side_regs.get_spec(q) == b1.side_regs.get_spec(q));
                    }
                }
                assert(b.scope.get_spec(name@) is Some);
            assert(b.scope.has(name@));
            }
            return Ok(());
        }
        let id = self.node3(prefix, name.as_str(), "", NodeKind::Plain);
        proof {
            lemma_nodes_ok_grow(b, n0, self.c.nodes@.len());
        }
        let ghost b1 = *b;
        b.scope.insert(name.clone(), id);
        b.qual_of.insert(name.clone(), qual);
        proof {
            let n = self.c.nodes@.len();
            assert forall|q: Seq<char>| #[trigger] b.scope.get_spec(q) matches Some(x) ==> x < n by {
                if q != name@ {
                    assert(b.scope.get_spec(q) == b1.scope.get_spec(q));
                }
            }
            assert(b.scope.get_spec(name@) is Some);
            assert(b.scope.has(name@));
        }
        match init {
            Some(ri) => match &ri.tok {
                Some(t) => self.apply_elem(id, name.as_str(), t.as_str(), ri.strength, qual, line),
                None => self.apply_bare_strength(id, ri.strength, qual, line),
            },
            None => {
                if qual == Qual::Const {
                    return fail(line, own("const reg requires an initializer"));
                }
                Ok(())
            },
        }
    }

    /// `target = rhs;` (or `target = N rhs;` with a strength): an element sequence of one
    /// chunk for a wire (reassigning one warns), an alias of two points, or an element
    /// for a reg. Whole buses cannot be assigned or assigned from, and an input port takes
    /// no element.
    fn assign_single(&mut self, line: i32, target: &String, strength: i32, rhs: &String, b: &mut Body) -> (r: RvResult<()>)
        requires
            old(self).c.wf(),
            old(b).nodes_ok(old(self).c.nodes@.len()),
        ensures
            kept(*old(self), *final(self)),
            final(b).nodes_ok(final(self).c.nodes@.len()),
            same_pending(*old(b), *final(b)),
            final(b).wire_names == old(b).wire_names,
            final(b).scope == old(b).scope,
            final(b).buses == old(b).buses,
            final(b).side_regs == old(b).side_regs,
            final(b).bus_side_regs == old(b).bus_side_regs,
            final(self).c.nodes@.len() == old(self).c.nodes@.len(),
            old(b).wire_names.has(target@) ==> (r is Ok) == (strength < 0),
            old(b).wire_names.has(target@) && r is Ok ==> (final(b).wire_seq.get_spec(target@) matches Some(e) && e.0 == line
                && e.1@.len() == 1 && e.1@[0]@ == rhs@),
            (!old(b).wire_names.has(target@) && (old(b).buses.has(target@) || old(b).buses.has(rhs@) || !old(b).scope.has(
                target@))) ==> r is Err,
    {
        if b.wire_names.contains(target.as_str()) {
            if strength >= 0 {
                return fail(line, own("a wire element sequence cannot take a signal strength"));
            }
            if b.wseq_seen.contains(target.as_str()) {
                warn(&mut self.warnings, line, cat3("wire '", target.as_str(), "' reassigned (last assignment wins)"));
            }
            b.wseq_seen.insert(target.clone());
            let mut toks: Vec<String> = Vec::new();
            toks.push(rhs.clone());
            b.wire_seq.insert(target.clone(), (line, toks));
            return Ok(());
        }
        if b.buses.contains_key(target.as_str()) {
            let m = cat5("cannot assign to a whole bus '", target.as_str(), "'; drive each lane with a chain (e.g. 'src - ", target.as_str(), "[0];')");
            return fail(line, m);
        }
        if b.buses.contains_key(rhs.as_str()) {
            let m = cat5("cannot use a whole bus '", rhs.as_str(), "' on the right-hand side of '='; index a lane (e.g. '", rhs.as_str(), "[0]') and wire it with a chain");
            return fail(line, m);
        }
        let tnode = match b.scope.get(target.as_str()) {
            Some(n) => *n,
            None => return fail(line, cat2("unknown assignment target: ", target.as_str())),
        };
        let troot = self.c.find(tnode);
        proof {
            lemma_root_bound(&self.c, tnode as int);
        }
        let rhs_node = b.scope.get(rhs.as_str());
        if self.c.nodes[troot].kind == NodeKind::Input && rhs_node.is_none() && strength < 0 {
            return fail(line, cat3("cannot assign an element to input port '", target.as_str(), "'"));
        }
        match rhs_node {
            Some(rn) => if strength < 0 {
                return self.c.merge(tnode, *rn, line);
            },
            None => {},
        }
        let q = match b.qual_of.get(target.as_str()) {
            Some(q) => *q,
            None => Qual::Plain,
        };
        self.apply_elem(tnode, target.as_str(), rhs.as_str(), strength, q, line)
    }

    /// `target = from - chunks - to;`: defines the element sequence of wire `target`
    /// (reassigning one warns); only a wire can be so assigned, and `.side` cannot appear.
    fn assign_chain(
        &mut self,
        line: i32,
        target: &String,
        from: &String,
        from_side: bool,
        to: &String,
        to_side: bool,
        chunks: &Vec<String>,
        b: &mut Body,
    ) -> (r: RvResult<()>)
        ensures
            *final(self) == (Elaborator { warnings: final(self).warnings, ..*old(self) }),
            old(b).nodes_ok(old(self).c.nodes@.len()) ==> final(b).nodes_ok(final(self).c.nodes@.len()),
            same_pending(*old(b), *final(b)),
            final(b).wire_names == old(b).wire_names,
            final(b).scope == old(b).scope,
            final(b).buses == old(b).buses,
            final(b).side_regs == old(b).side_regs,
            final(b).bus_side_regs == old(b).bus_side_regs,
            r is Ok <==> old(b).wire_names.has(target@) && !from_side && !to_side,
    {
        if !b.wire_names.contains(target.as_str()) {
            let m = cat3("only a wire can be assigned an element sequence ('", target.as_str(), " = ...'); to connect two points use a chain statement like 'a-b-c;'");
            return fail(line, m);
        }
        if from_side || to_side {
            return fail(line, own("'.side' cannot appear in a wire element sequence definition"));
        }
        let mut toks: Vec<String> = Vec::new();
        toks.push(from.clone());
        let mut k: usize = 0;
        while k < chunks.len()
            invariant
                k <= chunks@.len(),
            decreases chunks@.len() - k,
        {
            toks.push(chunks[k].clone());
            k += 1;
        }
        toks.push(to.clone());
        if b.wseq_seen.contains(target.as_str()) {
            warn(&mut self.warnings, line, cat3("wire '", target.as_str(), "' reassigned (last assignment wins)"));
        }
        let ghost b0 = *b;
        b.wseq_seen.insert(target.clone());
        b.wire_seq.insert(target.clone(), (line, toks));
        proof {
            if b0.nodes_ok(self.c.nodes@.len()) {
                lemma_nodes_ok_same(&b0, b, self.c.nodes@.len());
            }
        }
        Ok(())
    }

    /// `wire a, b;`: declares wires; a name already in use is refused.
    fn decl_wires(&mut self, line: i32, names: &Vec<String>, b: &mut Body) -> (r: RvResult<()>)
        ensures
            *final(self) == *old(self),
            old(b).nodes_ok(old(self).c.nodes@.len()) ==> final(b).nodes_ok(final(self).c.nodes@.len()),
            same_pending(*old(b), *final(b)),
            final(b).scope == old(b).scope,
            final(b).buses == old(b).buses,
            final(b).side_regs == old(b).side_regs,
            final(b).bus_side_regs == old(b).bus_side_regs,
            r is Ok ==> forall|k: int| 0 <= k < names@.len() ==> final(b).wire_names.has((#[trigger] names@[k])@),
            (r is Ok) == forall|i: int| 0 <= i < names@.len() ==> !old(b).taken((#[trigger] names@[i])@) && forall|j: int|
                0 <= j < i ==> names@[j]@ != names@[i]@,
    {
        let mut k: usize = 0;
        while k < names.len()
            invariant
                k <= names@.len(),
                forall|i: int| 0 <= i < k ==> !old(b).taken((#[trigger] names@[i])@) && forall|j: int|
                    0 <= j < i ==> names@[j]@ != names@[i]@,
                forall|q: Seq<char>| #[trigger] b.wire_names.has(q) == (old(b).wire_names.has(q) || exists|j: int|
                    0 <= j < k && (#[trigger] names@[j])@ == q),
                old(b).nodes_ok(old(self).c.nodes@.len()) ==> b.nodes_ok(self.c.nodes@.len()),
                *self == *old(self),
                same_pending(*old(b), *b),
                b.scope == old(b).scope,
                b.buses == old(b).buses,
                b.side_regs == old(b).side_regs,
                b.bus_side_regs == old(b).bus_side_regs,
                forall|j: int| 0 <= j < k ==> b.wire_names.has((#[trigger] names@[j])@),
            decreases names@.len() - k,
        {
            let n = &names[k];
            if b.is_taken(n.as_str()) {
                proof {
                    if !old(b).taken(n@) {
                        let j = choose|j: int| 0 <= j < k && (#[trigger] names@[j])@ == n@;
                        assert(names@[j]@ == names@[k as int]@);
                    }
                }
                return fail(line, cat2("duplicate name: ", n.as_str()));
            }
            let ghost w0 = b.wire_names;
            let ghost b0 = *b;
            b.wire_names.insert(n.clone());
            b.decl_lines.insert(n.clone(), line);
            proof {
                if b0.nodes_ok(self.c.nodes@.len()) {
                    lemma_nodes_ok_same(&b0, b, self.c.nodes@.len());
                }
                assert forall|j: int| 0 <= j <= k implies b.wire_names.has((#[trigger] names@[j])@) by {
                    if j < k {
                        assert(w0.has(names@[j]@));
                    }
                }
                assert forall|q: Seq<char>| #[trigger] b.wire_names.has(q) == (old(b).wire_names.has(q) || exists|j: int|
                    0 <= j < k + 1 && (#[trigger] names@[j])@ == q) by {
                    if q == n@ {
                        assert(names@[k as int]@ == q);
                    } else if exists|j: int| 0 <= j < k + 1 && (#[trigger] names@[j])@ == q {
                        let j = choose|j: int| 0 <= j < k + 1 && (#[trigger] names@[j])@ == q;
                        assert(j < k);
                    }
                }
                assert forall|j: int| 0 <= j < k implies names@[j]@ != names@[k as int]@ by {
                    assert(w0.has(names@[j]@));
                }
            }
            k += 1;
        }
        Ok(())
    }

    /// Processes the statements of `l` in order: declarations and assignments take effect
    /// at once; instances and chains are recorded (by statement index) to be wired after.
    fn elab_stmts(&mut self, l: &LogicDef, prefix: &str, param_env: &StrMap<i64>, defines: &StrMap<i64>, b: &mut Body) -> (r: RvResult<()>)
        requires
            old(self).c.wf(),
            old(b).nodes_ok(old(self).c.nodes@.len()),
            logic_def_ok(*l),
            old(b).instances@.len() == 0,
            old(b).chains@.len() == 0,
        ensures
            kept(*old(self), *final(self)),
            final(b).nodes_ok(final(self).c.nodes@.len()),
            final(b).inputs == old(b).inputs,
            final(b).outs == old(b).outs,
            forall|k: int| 0 <= k < final(b).instances@.len() ==> (#[trigger] final(b).instances@[k]) < l.stmts@.len()
                && l.stmts@[final(b).instances@[k] as int] is Instance,
            forall|k: int| 0 <= k < final(b).chains@.len() ==> (#[trigger] final(b).chains@[k]) < l.stmts@.len()
                && l.stmts@[final(b).chains@[k] as int] is Chain,
            r is Ok ==> final(b).instances@ == instance_positions(l.stmts@, l.stmts@.len() as int)
                && final(b).chains@ == chain_positions(l.stmts@, l.stmts@.len() as int),
            (forall|k: int| 0 <= k < l.stmts@.len() ==> (#[trigger] l.stmts@[k]) is Instance || l.stmts@[k] is Chain) ==> r is Ok,
            l.stmts@.len() == 0 ==> *final(b) == *old(b) && *final(self) == *old(self),
    {
        let mut i: usize = 0;
        proof {
            assert(b.instances@ =~= instance_positions(l.stmts@, 0));
            assert(b.chains@ =~= chain_positions(l.stmts@, 0));
        }
        while i < l.stmts.len()
            invariant
                l.stmts@.len() == 0 ==> *b == *old(b) && *self == *old(self),
                b.instances@ == instance_positions(l.stmts@, i as int),
                b.chains@ == chain_positions(l.stmts@, i as int),
                i <= l.stmts@.len(),
                kept(*old(self), *self),
                b.nodes_ok(self.c.nodes@.len()),
                logic_def_ok(*l),
                b.inputs == old(b).inputs,
                b.outs == old(b).outs,
                forall|k: int| 0 <= k < b.instances@.len() ==> (#[trigger] b.instances@[k]) < l.stmts@.len()
                    && l.stmts@[b.instances@[k] as int] is Instance,
                forall|k: int| 0 <= k < b.chains@.len() ==> (#[trigger] b.chains@[k]) < l.stmts@.len()
                    && l.stmts@[b.chains@[k] as int] is Chain,
            decreases l.stmts@.len() - i,
        {
            proof {
                assert(logic_stmt_ok(l.stmts@[i as int]));
            }
            let res = match &l.stmts[i] {
                LogicStmt::Instance { .. } => {
                    let ghost v0 = b.instances@;
                    b.instances.push(i);
                    proof {
                        assert forall|k: int| 0 <= k < b.instances@.len() implies (#[trigger] b.instances@[k]) < l.stmts@.len()
                            && l.stmts@[b.instances@[k] as int] is Instance by {
                            if k < v0.len() {
                                assert(b.instances@[k] == v0[k]);
                            }
                        }
                    }
                    Ok(())
                },
                LogicStmt::Chain { .. } => {
                    let ghost v0 = b.chains@;
                    b.chains.push(i);
                    proof {
                        assert forall|k: int| 0 <= k < b.chains@.len() implies (#[trigger] b.chains@[k]) < l.stmts@.len()
                            && l.stmts@[b.chains@[k] as int] is Chain by {
                            if k < v0.len() {
                                assert(b.chains@[k] == v0[k]);
                            }
                        }
                    }
                    Ok(())
                },
                LogicStmt::DeclWire { line, names } => self.decl_wires(*line, names, b),
                LogicStmt::DeclReg { line, name, qual, init, width } => self.decl_reg(*line, name, *qual, init, width, prefix, param_env, defines, b),
                LogicStmt::AssignSingle { line, target, strength, rhs } => self.assign_single(*line, target, *strength, rhs, b),
                LogicStmt::AssignChain { line, target, from, from_side, to, to_side, chunks } => self.assign_chain(
                    *line,
                    target,
                    from,
                    *from_side,
                    to,
                    *to_side,
                    chunks,
                    b,
                ),
            };
            match res {
                Ok(()) => {},
                Err(x) => return Err(x),
            }
            proof {
                assert(b.instances@ =~= instance_positions(l.stmts@, i + 1));
                assert(b.chains@ =~= chain_positions(l.stmts@, i + 1));
            }
            i += 1;
        }
        Ok(())
    }

    /// Checks every wire element sequence (used or not): each token is another wire or an
    /// element chunk; a reg, port or bus cannot appear in one.
    fn check_wire_defs(b: &Body) -> (r: RvResult<()>)
        ensures
            (r is Ok) == forall|i: int, k: int| 0 <= i < b.wire_seq.entries@.len() && 0 <= k < b.wire_seq.entries@[i].1.1@.len()
                ==> wire_tok_ok(*b, #[trigger] b.wire_seq.entries@[i].1.1@[k]@, b.wire_seq.entries@[i].1.0),
    {
        let mut i: usize = 0;
        while i < b.wire_seq.entries.len()
            invariant
                i <= b.wire_seq.entries@.len(),
                forall|i2: int, k: int| 0 <= i2 < i && 0 <= k < b.wire_seq.entries@[i2].1.1@.len()
                    ==> wire_tok_ok(*b, #[trigger] b.wire_seq.entries@[i2].1.1@[k]@, b.wire_seq.entries@[i2].1.0),
            decreases b.wire_seq.entries@.len() - i,
        {
            let wn = b.wire_seq.entries[i].0.as_str();
            let def_line = b.wire_seq.entries[i].1.0;
            let tokens = &b.wire_seq.entries[i].1.1;
            let mut k: usize = 0;
            while k < tokens.len()
                invariant
                    k <= tokens@.len(),
                    i < b.wire_seq.entries@.len(),
                    *tokens == b.wire_seq.entries@[i as int].1.1,
                    def_line == b.wire_seq.entries@[i as int].1.0,
                    forall|i2: int, k2: int| 0 <= i2 < i && 0 <= k2 < b.wire_seq.entries@[i2].1.1@.len()
                        ==> wire_tok_ok(*b, #[trigger] b.wire_seq.entries@[i2].1.1@[k2]@, b.wire_seq.entries@[i2].1.0),
                    forall|k2: int| 0 <= k2 < k ==> wire_tok_ok(*b, #[trigger] tokens@[k2]@, def_line),
                decreases tokens@.len() - k,
            {
                let tok = tokens[k].as_str();
                if b.scope.contains_key(tok) || b.buses.contains_key(tok) {
                    let m = cat5("named node '", tok, "' cannot appear in wire '", wn, "' (a wire is a reusable element sequence, not a connection); to connect two points use a chain statement like 'a-b-c;'");
                    return fail(def_line, m);
                }
                if !b.wire_names.contains(tok) {
                    match parse_chunk(tok, def_line) {
                        Ok(_) => {},
                        Err(x) => return Err(x),
                    }
                }
                k += 1;
            }
            proof {
                assert forall|i2: int, k2: int| 0 <= i2 < i + 1 && 0 <= k2 < b.wire_seq.entries@[i2].1.1@.len()
                    implies wire_tok_ok(*b, #[trigger] b.wire_seq.entries@[i2].1.1@[k2]@, b.wire_seq.entries@[i2].1.0) by {
                    if i2 == i {
                        assert(wire_tok_ok(*b, tokens@[k2]@, def_line));
                    }
                }
            }
            i += 1;
        }
        Ok(())
    }

    /// Builds the chains of `l` (recorded in `b.chains`), now that every node exists: both
    /// endpoints are resolved; two single points make one chain; otherwise the lanes are
    /// paired (a single lane on one side is broadcast to the other's width; other widths
    /// must match) and each pair gets its own copy of the elements.
    fn build_anon_chains(&mut self, l: &LogicDef, prefix: &str, param_env: &StrMap<i64>, defines: &StrMap<i64>, b: &mut Body) -> (r: RvResult<()>)
        requires
            old(self).c.wf(),
            old(b).nodes_ok(old(self).c.nodes@.len()),
            forall|k: int| 0 <= k < old(b).chains@.len() ==> (#[trigger] old(b).chains@[k]) < l.stmts@.len()
                && l.stmts@[old(b).chains@[k] as int] is Chain,
        ensures
            kept(*old(self), *final(self)),
            final(b).nodes_ok(final(self).c.nodes@.len()),
            same_pending(*old(b), *final(b)),
            final(b).scope == old(b).scope,
            final(b).buses == old(b).buses,
            final(b).side_regs == old(b).side_regs,
            final(b).bus_side_regs == old(b).bus_side_regs,
            final(b).wire_names == old(b).wire_names,
            old(b).chains@.len() == 0 ==> r is Ok && *final(self) == *old(self) && *final(b) == *old(b),
    {
        let bus_names = key_set(&b.buses);
        let mut k: usize = 0;
        while k < b.chains.len()
            invariant
                old(b).chains@.len() == 0 ==> *self == *old(self) && *b == *old(b),
                k <= b.chains@.len(),
                kept(*old(self), *self),
                b.nodes_ok(self.c.nodes@.len()),
                same_pending(*old(b), *b),
                b.scope == old(b).scope,
                b.buses == old(b).buses,
                b.side_regs == old(b).side_regs,
                b.bus_side_regs == old(b).bus_side_regs,
                b.wire_names == old(b).wire_names,
                forall|j: int| 0 <= j < b.chains@.len() ==> (#[trigger] b.chains@[j]) < l.stmts@.len()
                    && l.stmts@[b.chains@[j] as int] is Chain,
            decreases b.chains@.len() - k,
        {
            let idx = b.chains[k];
            assert(l.stmts@[idx as int] is Chain);
            let (line, from_ep, to_ep, chunks) = match &l.stmts[idx] {
                LogicStmt::Chain { line, from, to, chunks } => (*line, from, to, chunks),
                _ => {
                    k += 1;
                    continue;
                },
            };
            let ghost n = self.c.nodes@.len();
            proof {
                lemma_ref_scope_ok(b, param_env.entries@, defines.entries@, n);
                lemma_ep_res_nodes(*from_ep, false, b.ref_scope(param_env.entries@, defines.entries@), line, n);
                lemma_ep_res_nodes(*to_ep, true, b.ref_scope(param_env.entries@, defines.entries@), line, n);
            }
            let src = match resolve_endpoint(from_ep, false, &b.scope, &b.side_regs, &b.bus_side_regs, &b.buses, &b.wire_names, param_env, defines, line) {
                Ok(e) => e,
                Err(x) => return Err(x),
            };
            let dst = match resolve_endpoint(to_ep, true, &b.scope, &b.side_regs, &b.bus_side_regs, &b.buses, &b.wire_names, param_env, defines, line) {
                Ok(e) => e,
                Err(x) => return Err(x),
            };
            let num = format_uint((k as u64) + 1, 10);
            let ghost b0 = *b;
            match (&src, &dst) {
                (Ep::Single(fi), Ep::Single(ti)) => {
                    assert(ep_view(src).1[0] == *fi);
                    assert(ep_view(dst).1[0] == *ti);
                    let label = cat2("#ch", num.as_str());
                    let res = self.build_chain_body(
                        label.as_str(),
                        prefix,
                        *fi,
                        *ti,
                        chunks,
                        &b.wire_seq,
                        &b.scope,
                        &b.wire_names,
                        &bus_names,
                        &mut b.used_wires,
                        line,
                    );
                    match res {
                        Ok(()) => {},
                        Err(x) => return Err(x),
                    }
                },
                _ => {
                    let mut sl = src.lanes();
                    let mut dl = dst.lanes();
                    proof {
                        assert(sl@ == ep_view(src).1);
                        assert(dl@ == ep_view(dst).1);
                    }
                    if sl.len() != dl.len() {
                        if sl.len() == 1 {
                            sl = repeat_lane(sl[0], dl.len());
                        } else if dl.len() == 1 {
                            dl = repeat_lane(dl[0], sl.len());
                        } else {
                            let a = endpoint_desc(from_ep);
                            let ta = format_uint(sl.len() as u64, 10);
                            let bd = endpoint_desc(to_ep);
                            let tb = format_uint(dl.len() as u64, 10);
                            let m = cat5("bus width mismatch in chain: '", a.as_str(), "' has ", ta.as_str(), " lane(s) but '");
                            let m = cat5(m.as_str(), bd.as_str(), "' has ", tb.as_str(), " (widths must be equal, or one side must be a scalar to broadcast)");
                            return fail(line, m);
                        }
                    }
                    let mut i: usize = 0;
                    while i < sl.len()
                        invariant
                            old(b).chains@.len() > 0,
                            i <= sl@.len(),
                            sl@.len() == dl@.len(),
                            lanes_ok(sl@, self.c.nodes@.len()),
                            lanes_ok(dl@, self.c.nodes@.len()),
                            kept(*old(self), *self),
                            b.nodes_ok(self.c.nodes@.len()),
                            *b == (Body { used_wires: b.used_wires, ..b0 }),
                            same_pending(*old(b), *b),
                            b.scope == old(b).scope,
                            b.buses == old(b).buses,
                            b.side_regs == old(b).side_regs,
                            b.bus_side_regs == old(b).bus_side_regs,
                            b.wire_names == old(b).wire_names,
                            self.c.nodes@.len() >= n,
                            b0.nodes_ok(n),
                        decreases sl@.len() - i,
                    {
                        let ti = format_uint(i as u64, 10);
                        let label = cat4("#ch", num.as_str(), "_", ti.as_str());
                        let ghost n1 = self.c.nodes@.len();
                        let res = self.build_chain_body(
                            label.as_str(),
                            prefix,
                            sl[i],
                            dl[i],
                            chunks,
                            &b.wire_seq,
                            &b.scope,
                            &b.wire_names,
                            &bus_names,
                            &mut b.used_wires,
                            line,
                        );
                        match res {
                            Ok(()) => {},
                            Err(x) => return Err(x),
                        }
                        proof {
                            lemma_nodes_ok_grow(b, n1, self.c.nodes@.len());
                            assert forall|j: int| 0 <= j < sl@.len() implies #[trigger] sl@[j] < self.c.nodes@.len() by {}
                            assert forall|j: int| 0 <= j < dl@.len() implies #[trigger] dl@[j] < self.c.nodes@.len() by {}
                        }
                        i += 1;
                    }
                },
            }
            proof {
                lemma_nodes_ok_grow(&b0, n, self.c.nodes@.len());
                lemma_nodes_ok_same(&b0, b, self.c.nodes@.len());
            }
            k += 1;
        }
        Ok(())
    }

    /// Resolves a parent-side reference of an instance binding (see `resolve_parent_ref`):
    /// its lanes are nodes of the body.
    fn parent_shape(&self, name: &str, sel: &Sel, b: &Body, param_env: &StrMap<i64>, defines: &StrMap<i64>, line: i32) -> (r: RvResult<PortShape>)
        requires
            b.nodes_ok(self.c.nodes@.len()),
        ensures
            r matches Ok(sh) ==> shape_ok(sh, self.c.nodes@.len()),
            b.wire_names.has(name@) ==> r is Err,
            (!b.wire_names.has(name@) && sel is All) ==> match b.scope.get_spec(name@) {
                Some(n) => r matches Ok(PortShape::Scalar(m)) && m == n,
                None => match b.buses.get_spec(name@) {
                    Some(v) => r matches Ok(PortShape::Bus(w)) && w@ == v@,
                    None => r is Err,
                },
            },
    {
        proof {
            lemma_ref_scope_ok(b, param_env.entries@, defines.entries@, self.c.nodes@.len());
        }
        let r = resolve_parent_ref(name, sel, &b.scope, &b.buses, &b.wire_names, param_env, defines, line);
        proof {
            let n = self.c.nodes@.len();
            if !b.wire_names.has(name@) {
                let sv = b.scope.get_spec(name@);
                let bv = b.buses.get_spec(name@);
                let sel_v = *sel;
                match sel_v {
                    Sel::All => {},
                    Sel::Lane(ie) => {
                        if let Ok(k) = idx_val(ie, param_env.entries@, defines.entries@, line) {
                            if let Some(v) = bv {
                                if 0 <= k < v@.len() {
                                    assert(v@[k as int] < n);
                                }
                            }
                        }
                    },
                    Sel::Slice(hie, loe) => {
                        if let (Ok(hi), Ok(lo)) = (idx_val(hie, param_env.entries@, defines.entries@, line), idx_val(loe, param_env.entries@, defines.entries@, line)) {
                            if let Some(v) = bv {
                                if 0 <= hi < v@.len() && 0 <= lo < v@.len() {
                                    let sl = slice_lanes(v@, hi as int, lo as int);
                                    assert forall|i: int| 0 <= i < sl.len() implies #[trigger] sl[i] < n by {
                                        if hi >= lo {
                                            assert(sl[i] == v@[hi - i]);
                                        } else {
                                            assert(sl[i] == v@[hi + i]);
                                        }
                                    }
                                }
                            }
                        }
                    },
                }
            }
        }
        r
    }

    /// Resolves one argument of a logic instance to a port shape: a reg, port, bus, lane or
    /// slice of the parent (a wire is refused); a concatenation (its parts' lanes in order,
    /// as a bus); or a nested call, which instantiates the callee, wires each of its input
    /// ports from the corresponding argument, and yields its single output port.
    fn resolve_inst_arg(
        &mut self,
        logics: &StrMap<LogicDef>,
        defines: &StrMap<i64>,
        arg: &InstArg,
        b: &Body,
        param_env: &StrMap<i64>,
        prefix: &str,
        line: i32,
    ) -> (r: RvResult<PortShape>)
        requires
            old(self).c.wf(),
            b.nodes_ok(old(self).c.nodes@.len()),
            logics_ok(*logics),
            stack_ok(old(self).stack@, *logics),
        ensures
            grew(*old(self), *final(self)),
            r is Ok ==> final(self).stack@ == old(self).stack@,
            r matches Ok(sh) ==> shape_ok(sh, final(self).c.nodes@.len()),
            (arg matches InstArg::Name { name, .. } && b.wire_names.has(name@)) ==> r is Err,
            match *arg {
                InstArg::Name { name, sel } => (!b.wire_names.has(name@) && sel is All) ==> *final(self) == *old(self)
                    && match b.scope.get_spec(name@) {
                    Some(n) => r matches Ok(PortShape::Scalar(m)) && m == n,
                    None => match b.buses.get_spec(name@) {
                        Some(v) => r matches Ok(PortShape::Bus(w)) && w@ == v@,
                        None => r is Err,
                    },
                },
                _ => true,
            },
        decreases logics.entries@.len() + 1 - old(self).stack@.len(), 2int, arg,
    {
        proof {
            lemma_stack_len(self.stack@, *logics);
        }
        match arg {
            InstArg::Name { name, sel } => {
                if b.wire_names.contains(name.as_str()) {
                    return fail(line, cat3("logic instance argument '", name.as_str(), "' must be a reg/port, not a wire"));
                }
                self.parent_shape(name.as_str(), sel, b, param_env, defines, line)
            },
            InstArg::Concat(parts) => {
                let mut lanes: Vec<usize> = Vec::new();
                let mut i: usize = 0;
                while i < parts.len()
                    invariant
                        arg is Concat,
                        i <= parts@.len(),
                        *self == *old(self),
                        self.c.wf(),
                        b.nodes_ok(self.c.nodes@.len()),
                        lanes_ok(lanes@, self.c.nodes@.len()),
                    decreases parts@.len() - i,
                {
                    let part = &parts[i];
                    if b.wire_names.contains(part.name.as_str()) {
                        return fail(line, cat3("logic instance argument '", part.name.as_str(), "' must be a reg/port, not a wire"));
                    }
                    let sh = match self.parent_shape(part.name.as_str(), &part.sel, b, param_env, defines, line) {
                        Ok(sh) => sh,
                        Err(x) => return Err(x),
                    };
                    let ls = sh.lanes();
                    let mut j: usize = 0;
                    while j < ls.len()
                        invariant
                            j <= ls@.len(),
                            lanes_ok(lanes@, self.c.nodes@.len()),
                            lanes_ok(ls@, self.c.nodes@.len()),
                        decreases ls@.len() - j,
                    {
                        lanes.push(ls[j]);
                        j += 1;
                    }
                    i += 1;
                }
                Ok(PortShape::Bus(lanes))
            },
            InstArg::Call { line: cl, callee, params, args } => {
                let sub = match lookup_logic(logics, callee.as_str(), *cl) {
                    Ok(s) => s,
                    Err(x) => return Err(x),
                };
                let ghost n0 = self.c.nodes@.len();
                let (sub_in, mut sub_out) = match self.instantiate_sub(logics, defines, sub, params, param_env, prefix, *cl, args.len()) {
                    Ok(p) => p,
                    Err(x) => return Err(x),
                };
                match require_single_output(callee.as_str(), sub_out.len(), *cl) {
                    Ok(()) => {},
                    Err(x) => return Err(x),
                }
                proof {
                    lemma_nodes_ok_grow(b, n0, self.c.nodes@.len());
                }
                let ghost n1 = self.c.nodes@.len();
                match self.connect_call_args(logics, defines, callee.as_str(), args, &sub_in, b, param_env, prefix, *cl) {
                    Ok(()) => {},
                    Err(x) => return Err(x),
                }
                proof {
                    lemma_ports_grow(sub_in@, sub_out@, n1, self.c.nodes@.len());
                    assert(shape_ok(sub_out@[0].1, self.c.nodes@.len()));
                }
                let first = sub_out.remove(0);
                Ok(first.1)
            },
        }
    }

    /// Links each input port of a nested call's callee from the corresponding argument
    /// (resolved recursively), lane by lane without loss.
    fn connect_call_args(
        &mut self,
        logics: &StrMap<LogicDef>,
        defines: &StrMap<i64>,
        callee: &str,
        args: &Vec<InstArg>,
        sub_in: &Ports,
        b: &Body,
        param_env: &StrMap<i64>,
        prefix: &str,
        line: i32,
    ) -> (r: RvResult<()>)
        requires
            old(self).c.wf(),
            b.nodes_ok(old(self).c.nodes@.len()),
            logics_ok(*logics),
            stack_ok(old(self).stack@, *logics),
            forall|j: int| 0 <= j < sub_in@.len() ==> shape_ok((#[trigger] sub_in@[j]).1, old(self).c.nodes@.len()),
        ensures
            grew(*old(self), *final(self)),
            r is Ok ==> final(self).stack@ == old(self).stack@,
            (args@.len() == 0 || sub_in@.len() == 0) ==> r is Ok && *final(self) == *old(self),
            scalar_args_fit(args@, sub_in@, *b) ==> r is Ok,
        decreases logics.entries@.len() + 1 - old(self).stack@.len(), 2int, args,
    {
        proof {
            lemma_stack_len(self.stack@, *logics);
        }
        let mut k: usize = 0;
        while k < args.len() && k < sub_in.len()
            invariant
                (args@.len() == 0 || sub_in@.len() == 0) ==> *self == *old(self),
                k <= args@.len(),
                grew(*old(self), *self),
                self.stack@ == old(self).stack@,
                stack_ok(self.stack@, *logics),
                logics_ok(*logics),
                self.stack@.len() <= logics.entries@.len() + 1,
                b.nodes_ok(self.c.nodes@.len()),
                forall|j: int| 0 <= j < sub_in@.len() ==> shape_ok((#[trigger] sub_in@[j]).1, self.c.nodes@.len()),
            decreases args@.len() - k,
        {
            proof {
                assert(decreases_to!(args => args@[k as int]));
            }
            let ghost n1 = self.c.nodes@.len();
            let ar = match self.resolve_inst_arg(logics, defines, &args[k], b, param_env, prefix, line) {
                Ok(ar) => ar,
                Err(x) => return Err(x),
            };
            proof {
                lemma_nodes_ok_grow(b, n1, self.c.nodes@.len());
                assert forall|j: int| 0 <= j < sub_in@.len() implies shape_ok((#[trigger] sub_in@[j]).1, self.c.nodes@.len()) by {
                    lemma_shape_grow(sub_in@[j].1, n1, self.c.nodes@.len());
                }
                assert(shape_ok(sub_in@[k as int].1, self.c.nodes@.len()));
            }
            proof {
                if scalar_args_fit(args@, sub_in@, *b) {
                    assert(args@[k as int] is Name);
                    assert(crate::interp::shape_width(sub_in@[k as int].1) == 1);
                }
            }
            let ctx = cat4(callee, " input port '", sub_in[k].0.as_str(), "'");
            match connect_ports(&mut self.c, &ar, &sub_in[k].1, ctx.as_str(), line) {
                Ok(()) => {},
                Err(x) => return Err(x),
            }
            k += 1;
        }
        Ok(())
    }

    /// Elaborates `sub` as a hidden sub-instance `parent/callee#N` (N counts the
    /// sub-instances), with the parameter environment the call's `#(...)` actuals give it.
    fn instantiate_sub(
        &mut self,
        logics: &StrMap<LogicDef>,
        defines: &StrMap<i64>,
        sub: &LogicDef,
        call_params: &Vec<(String, Expr)>,
        caller_env: &StrMap<i64>,
        parent_prefix: &str,
        line: i32,
        arg_count: usize,
    ) -> (r: RvResult<(Ports, Ports)>)
        requires
            old(self).c.wf(),
            logics_ok(*logics),
            logics.get_spec(sub.name@) == Some(*sub),
            stack_ok(old(self).stack@, *logics),
        ensures
            grew(*old(self), *final(self)),
            r is Ok ==> final(self).stack@ == old(self).stack@,
            r matches Ok(p) ==> ports_fit(p.0@, p.1@, final(self).c.nodes@.len()) && p.0@.len() == arg_count,
            (sub.ports@.len() == 0 && sub.stmts@.len() == 0 && sub.params@.len() == 0 && call_params@.len() == 0 && arg_count == 0
                && !strs_view(old(self).stack@).contains(sub.name@)) ==> r is Ok,
        decreases logics.entries@.len() + 1 - old(self).stack@.len(), 1int, sub,
    {
        proof {
            lemma_stack_len(self.stack@, *logics);
        }
        let sub_env = match build_callee_param_env(sub.name.as_str(), &sub.params, call_params, caller_env, defines, line) {
            Ok(e) => e,
            Err(x) => return Err(x),
        };
        self.counter = self.counter.wrapping_add(1);
        let t = format_uint(self.counter as u64, 10);
        let sub_prefix = cat5(parent_prefix, "/", sub.name.as_str(), "#", t.as_str());
        self.elaborate(logics, defines, sub, sub_prefix.as_str(), false, line, arg_count, sub_env)
    }

    /// The lanes of a concatenation of parent-side references, in order, as a bus.
    fn concat_shape(&self, parts: &Vec<BindRef>, b: &Body, param_env: &StrMap<i64>, defines: &StrMap<i64>, line: i32) -> (r: RvResult<PortShape>)
        requires
            b.nodes_ok(self.c.nodes@.len()),
        ensures
            r matches Ok(sh) ==> shape_ok(sh, self.c.nodes@.len()),
            (forall|i: int| 0 <= i < parts@.len() ==> (#[trigger] parts@[i]).sel is All && !b.wire_names.has(parts@[i].name@)
                && b.scope.has(parts@[i].name@)) ==> (r matches Ok(PortShape::Bus(ls)) && ls@.len() == parts@.len()
                && forall|i: int| 0 <= i < parts@.len() ==> b.scope.get_spec((#[trigger] parts@[i]).name@) == Some(ls@[i])),
    {
        let ghost simple = forall|i: int| 0 <= i < parts@.len() ==> (#[trigger] parts@[i]).sel is All && !b.wire_names.has(
            parts@[i].name@) && b.scope.has(parts@[i].name@);
        let mut lanes: Vec<usize> = Vec::new();
        let mut i: usize = 0;
        while i < parts.len()
            invariant
                i <= parts@.len(),
                b.nodes_ok(self.c.nodes@.len()),
                lanes_ok(lanes@, self.c.nodes@.len()),
                simple == forall|i: int| 0 <= i < parts@.len() ==> (#[trigger] parts@[i]).sel is All && !b.wire_names.has(
                    parts@[i].name@) && b.scope.has(parts@[i].name@),
                simple ==> lanes@.len() == i && forall|k: int| 0 <= k < i ==> b.scope.get_spec((#[trigger] parts@[k]).name@)
                    == Some(lanes@[k]),
            decreases parts@.len() - i,
        {
            let part = &parts[i];
            let sh = match self.parent_shape(part.name.as_str(), &part.sel, b, param_env, defines, line) {
                Ok(sh) => sh,
                Err(x) => return Err(x),
            };
            let ls = sh.lanes();
            proof {
                if simple {
                    assert(parts@[i as int].sel is All);
                }
            }
            let ghost l0 = lanes@;
            let mut j: usize = 0;
            while j < ls.len()
                invariant
                    j <= ls@.len(),
                    lanes_ok(lanes@, self.c.nodes@.len()),
                    lanes_ok(ls@, self.c.nodes@.len()),
                    lanes@ == l0 + ls@.subrange(0, j as int),
                decreases ls@.len() - j,
            {
                lanes.push(ls[j]);
                proof {
                    assert(lanes@ =~= l0 + ls@.subrange(0, j + 1));
                }
                j += 1;
            }
            proof {
                if simple {
                    assert(ls@.subrange(0, ls@.len() as int) =~= ls@);
                    assert(ls@.len() == 1);
                    assert forall|k: int| 0 <= k < i + 1 implies b.scope.get_spec((#[trigger] parts@[k]).name@) == Some(lanes@[k]) by {
                        if k < i {
                            assert(lanes@[k] == l0[k]);
                        }
                    }
                }
            }
            i += 1;
        }
        Ok(PortShape::Bus(lanes))
    }

    /// Wires the instances of `l` (recorded in `b.instances`): the binding targets are
    /// resolved (a wire is refused, and no lane may be bound twice), the arguments are
    /// resolved, the callee is instantiated, and its input ports are linked from the
    /// arguments and its output ports to the targets, lane by lane without loss. The callee
    /// must have output ports, as many as the targets.
    fn wire_instances(
        &mut self,
        logics: &StrMap<LogicDef>,
        defines: &StrMap<i64>,
        l: &LogicDef,
        prefix: &str,
        param_env: &StrMap<i64>,
        b: &Body,
    ) -> (r: RvResult<()>)
        requires
            old(self).c.wf(),
            b.nodes_ok(old(self).c.nodes@.len()),
            logics_ok(*logics),
            stack_ok(old(self).stack@, *logics),
            forall|k: int| 0 <= k < b.instances@.len() ==> (#[trigger] b.instances@[k]) < l.stmts@.len()
                && l.stmts@[b.instances@[k] as int] is Instance,
        ensures
            grew(*old(self), *final(self)),
            r is Ok ==> final(self).stack@ == old(self).stack@,
            b.instances@.len() == 0 ==> r is Ok && *final(self) == *old(self),
        decreases logics.entries@.len() + 1 - old(self).stack@.len(), 3int, l,
    {
        proof {
            lemma_stack_len(self.stack@, *logics);
        }
        let mut k: usize = 0;
        while k < b.instances.len()
            invariant
                b.instances@.len() == 0 ==> *self == *old(self),
                k <= b.instances@.len(),
                grew(*old(self), *self),
                self.stack@ == old(self).stack@,
                stack_ok(self.stack@, *logics),
                logics_ok(*logics),
                self.stack@.len() <= logics.entries@.len() + 1,
                b.nodes_ok(self.c.nodes@.len()),
                forall|j: int| 0 <= j < b.instances@.len() ==> (#[trigger] b.instances@[j]) < l.stmts@.len()
                    && l.stmts@[b.instances@[j] as int] is Instance,
            decreases b.instances@.len() - k,
        {
            let idx = b.instances[k];
            let (line, outputs, callee, args, params) = match &l.stmts[idx] {
                LogicStmt::Instance { line, outputs, callee, args, params } => (*line, outputs, callee, args, params),
                _ => {
                    k += 1;
                    continue;
                },
            };
            let sub = match lookup_logic(logics, callee.as_str(), line) {
                Ok(s) => s,
                Err(x) => return Err(x),
            };
            proof {
                assert(logics.get_spec(callee@) == Some(*sub));
            }
            let mut out_refs: Vec<PortShape> = Vec::new();
            let mut j: usize = 0;
            while j < outputs.len()
                invariant
                    b.instances@.len() > 0,
                    j <= outputs@.len(),
                    out_refs@.len() == j,
                    grew(*old(self), *self),
                    self.stack@ == old(self).stack@,
                    stack_ok(self.stack@, *logics),
                    logics_ok(*logics),
                    self.stack@.len() <= logics.entries@.len() + 1,
                    b.nodes_ok(self.c.nodes@.len()),
                    shapes_ok(out_refs@, self.c.nodes@.len()),
                decreases outputs@.len() - j,
            {
                let refs = outputs[j].refs();
                let mut q: usize = 0;
                while q < refs.len()
                    invariant
                        b.instances@.len() > 0,
                        q <= refs@.len(),
                        grew(*old(self), *self),
                    decreases refs@.len() - q,
                {
                    if b.wire_names.contains(refs[q].name.as_str()) {
                        return fail(line, cat3("logic instance output '", refs[q].name.as_str(), "' must be a reg/port, not a wire"));
                    }
                    q += 1;
                }
                let sh = match &outputs[j] {
                    BindTarget::Ref(r) => self.parent_shape(r.name.as_str(), &r.sel, b, param_env, defines, line),
                    BindTarget::Concat(parts) => self.concat_shape(parts, b, param_env, defines, line),
                };
                let sh = match sh {
                    Ok(sh) => sh,
                    Err(x) => return Err(x),
                };
                out_refs.push(sh);
                j += 1;
            }
            let mut out_descs: Vec<String> = Vec::new();
            let mut out_lanes: Vec<Vec<usize>> = Vec::new();
            let mut j: usize = 0;
            while j < outputs.len() && j < out_refs.len()
                invariant
                    b.instances@.len() > 0,
                    j <= outputs@.len(),
                    out_refs@.len() == outputs@.len(),
                    grew(*old(self), *self),
                    self.stack@ == old(self).stack@,
                    stack_ok(self.stack@, *logics),
                    logics_ok(*logics),
                    self.stack@.len() <= logics.entries@.len() + 1,
                    b.nodes_ok(self.c.nodes@.len()),
                    shapes_ok(out_refs@, self.c.nodes@.len()),
                    out_descs@.len() == j,
                    out_lanes@.len() == j,
                decreases outputs@.len() - j,
            {
                out_descs.push(bind_target_desc(&outputs[j]));
                out_lanes.push(out_refs[j].lanes());
                j += 1;
            }
            match check_target_overlap(&out_descs, &out_lanes, line) {
                Ok(()) => {},
                Err(x) => return Err(x),
            }
            let mut arg_refs: Vec<PortShape> = Vec::new();
            let mut j: usize = 0;
            while j < args.len()
                invariant
                    b.instances@.len() > 0,
                    j <= args@.len(),
                    grew(*old(self), *self),
                    self.stack@ == old(self).stack@,
                    stack_ok(self.stack@, *logics),
                    logics_ok(*logics),
                    self.stack@.len() <= logics.entries@.len() + 1,
                    b.nodes_ok(self.c.nodes@.len()),
                    shapes_ok(out_refs@, self.c.nodes@.len()),
                    shapes_ok(arg_refs@, self.c.nodes@.len()),
                    arg_refs@.len() == j,
                decreases args@.len() - j,
            {
                let ghost n1 = self.c.nodes@.len();
                let ar = match self.resolve_inst_arg(logics, defines, &args[j], b, param_env, prefix, line) {
                    Ok(ar) => ar,
                    Err(x) => return Err(x),
                };
                proof {
                    lemma_nodes_ok_grow(b, n1, self.c.nodes@.len());
                    lemma_shapes_grow(out_refs@, n1, self.c.nodes@.len());
                    lemma_shapes_grow(arg_refs@, n1, self.c.nodes@.len());
                }
                arg_refs.push(ar);
                j += 1;
            }
            let ghost n2 = self.c.nodes@.len();
            let (sub_in, sub_out) = match self.instantiate_sub(logics, defines, sub, params, param_env, prefix, line, args.len()) {
                Ok(p) => p,
                Err(x) => return Err(x),
            };
            proof {
                lemma_nodes_ok_grow(b, n2, self.c.nodes@.len());
                lemma_shapes_grow(out_refs@, n2, self.c.nodes@.len());
                lemma_shapes_grow(arg_refs@, n2, self.c.nodes@.len());
            }
            match require_output_ports(callee.as_str(), sub_out.len(), line) {
                Ok(()) => {},
                Err(x) => return Err(x),
            }
            match check_binding_arity(callee.as_str(), sub_out.len(), outputs.len(), line) {
                Ok(()) => {},
                Err(x) => return Err(x),
            }
            let mut j: usize = 0;
            while j < arg_refs.len() && j < sub_in.len()
                invariant
                    b.instances@.len() > 0,
                    j <= arg_refs@.len(),
                    grew(*old(self), *self),
                    self.stack@ == old(self).stack@,
                    b.nodes_ok(self.c.nodes@.len()),
                    shapes_ok(out_refs@, self.c.nodes@.len()),
                    shapes_ok(arg_refs@, self.c.nodes@.len()),
                    ports_fit(sub_in@, sub_out@, self.c.nodes@.len()),
                decreases arg_refs@.len() - j,
            {
                let ctx = cat4(callee.as_str(), " input port '", sub_in[j].0.as_str(), "'");
                let ghost n3 = self.c.nodes@.len();
                assert(shape_ok(arg_refs@[j as int], n3));
                assert(shape_ok(sub_in@[j as int].1, n3));
                match connect_ports(&mut self.c, &arg_refs[j], &sub_in[j].1, ctx.as_str(), line) {
                    Ok(()) => {},
                    Err(x) => return Err(x),
                }
                j += 1;
            }
            let mut j: usize = 0;
            while j < sub_out.len() && j < out_refs.len()
                invariant
                    b.instances@.len() > 0,
                    j <= sub_out@.len(),
                    out_descs@.len() == outputs@.len(),
                    out_refs@.len() == outputs@.len(),
                    grew(*old(self), *self),
                    self.stack@ == old(self).stack@,
                    b.nodes_ok(self.c.nodes@.len()),
                    shapes_ok(out_refs@, self.c.nodes@.len()),
                    ports_fit(sub_in@, sub_out@, self.c.nodes@.len()),
                decreases sub_out@.len() - j,
            {
                let m = cat5("output '", sub_out[j].0.as_str(), "' of ", callee.as_str(), " bound to '");
                let ctx = cat3(m.as_str(), out_descs[j].as_str(), "'");
                let ghost n3 = self.c.nodes@.len();
                assert(shape_ok(out_refs@[j as int], n3));
                assert(shape_ok(sub_out@[j as int].1, n3));
                match connect_ports(&mut self.c, &sub_out[j].1, &out_refs[j], ctx.as_str(), line) {
                    Ok(()) => {},
                    Err(x) => return Err(x),
                }
                j += 1;
            }
            k += 1;
        }
        Ok(())
    }

    /// Expands logic `l` into circuit nodes under `prefix`. At top level its input ports
    /// are `Input` nodes driven by testbench variables; otherwise they are plain nodes that
    /// the caller wires. Returns the input and output ports (name, shape) in declaration
    /// order. Instantiating a logic that is already being elaborated is refused, as is a
    /// number of arguments other than the number of input ports, and an output port with
    /// an undriven lane.
    pub fn elaborate(
        &mut self,
        logics: &StrMap<LogicDef>,
        defines: &StrMap<i64>,
        l: &LogicDef,
        prefix: &str,
        top_level: bool,
        call_line: i32,
        arg_count: usize,
        param_env: StrMap<i64>,
    ) -> (r: RvResult<(Ports, Ports)>)
        requires
            old(self).c.wf(),
            logics_ok(*logics),
            logics.get_spec(l.name@) == Some(*l) || (old(self).stack@.len() == 0 && logic_def_ok(*l)),
            stack_ok(old(self).stack@, *logics),
        ensures
            grew(*old(self), *final(self)),
            r is Ok ==> final(self).stack@ == old(self).stack@,
            r matches Ok(p) ==> ports_fit(p.0@, p.1@, final(self).c.nodes@.len()) && p.0@.len() == arg_count
                && ports_names(p.0@) == port_names(l.ports@, true) && ports_names(p.1@) == port_names(l.ports@, false),
            r matches Ok(p) ==> outs_driven(final(self).c, p.1@),
            strs_view(old(self).stack@).contains(l.name@) ==> (r matches Err(e) && e@ == line_err(
                call_line,
                "recursive logic instantiation: "@ + join(strs_view(old(self).stack@.push(l.name)), " -> "@),
            )),
            (l.ports@.len() == 0 && l.stmts@.len() == 0 && arg_count == 0 && !strs_view(old(self).stack@).contains(l.name@))
                ==> r is Ok,
            (!strs_view(old(self).stack@).contains(l.name@) && ports_scalar_distinct(l.ports@) && port_names(l.ports@, true).len()
                != arg_count) ==> (r matches Err(e) && e@ == arity_error(*l, arg_count as nat, call_line)),
            (!strs_view(old(self).stack@).contains(l.name@) && ports_scalar_distinct(l.ports@) && port_names(l.ports@, true).len()
                == arg_count && l.stmts@.len() == 0 && port_names(l.ports@, false).len() > 0) ==> (r matches Err(e) && e@ == line_err(
                call_line,
                "output port '"@ + port_names(l.ports@, false)[0] + "' of logic '"@ + l.name@ + "' is not driven (unconnected port)"@,
            )),
        decreases logics.entries@.len() + 1 - old(self).stack@.len(), 0int, l,
    {
        let ghost empty = l.ports@.len() == 0 && l.stmts@.len() == 0 && arg_count == 0;
        proof {
            lemma_stack_len(self.stack@, *logics);
        }
        if in_strs(&self.stack, l.name.as_str()) {
            self.stack.push(l.name.clone());
            let m = join_strs(&self.stack, " -> ");
            return fail(call_line, cat2("recursive logic instantiation: ", m.as_str()));
        }
        proof {
            assert(logics.has(l.name@) || self.stack@.len() == 0);
            lemma_stack_push(self.stack@, *logics, l.name);
        }
        self.stack.push(l.name.clone());
        let seq_lo = self.c.seqs.len();
        let mut b = Body::new();
        proof {
            if ports_scalar_distinct(l.ports@) {
                assert forall|i: int| 0 <= i < l.ports@.len() implies !b.scope.has((#[trigger] l.ports@[i]).name@)
                    && !b.buses.has(l.ports@[i].name@) by {
                    assert(!b.taken(l.ports@[i].name@));
                }
            }
        }
        match self.elab_ports(l, prefix, top_level, &param_env, defines, &mut b) {
            Ok(()) => {},
            Err(x) => return Err(x),
        }
        proof {
            if empty {
                assert(ports_names(b.inputs@).len() == b.inputs@.len());
                assert(port_names(l.ports@, true) =~= Seq::<Seq<char>>::empty());
            }
            assert(ports_names(b.inputs@).len() == b.inputs@.len());
        }
        if arg_count != b.inputs.len() {
            let a = format_uint(b.inputs.len() as u64, 10);
            let g = format_uint(arg_count as u64, 10);
            let m = cat5(l.name.as_str(), ": expected ", a.as_str(), " input argument(s), got ", g.as_str());
            return fail(call_line, m);
        }
        proof {
            assert(logic_def_ok(*l));
        }
        match self.elab_stmts(l, prefix, &param_env, defines, &mut b) {
            Ok(()) => {},
            Err(x) => return Err(x),
        }
        proof {
            if empty {
                assert(instance_positions(l.stmts@, 0) =~= Seq::<usize>::empty());
                assert(chain_positions(l.stmts@, 0) =~= Seq::<usize>::empty());
            }
        }
        match Self::check_wire_defs(&b) {
            Ok(()) => {},
            Err(x) => return Err(x),
        }
        match self.build_anon_chains(l, prefix, &param_env, defines, &mut b) {
            Ok(()) => {},
            Err(x) => return Err(x),
        }
        let ghost n = self.c.nodes@.len();
        match self.wire_instances(logics, defines, l, prefix, &param_env, &b) {
            Ok(()) => {},
            Err(x) => return Err(x),
        }
        proof {
            lemma_nodes_ok_grow(&b, n, self.c.nodes@.len());
        }
        proof {
            if empty {
                assert(ports_names(b.outs@).len() == b.outs@.len());
                assert(port_names(l.ports@, false) =~= Seq::<Seq<char>>::empty());
            }
            if ports_scalar_distinct(l.ports@) && l.stmts@.len() == 0 && port_names(l.ports@, false).len() > 0 {
                assert(ports_names(b.outs@).len() == b.outs@.len());
                assert(b.outs@.len() > 0);
                assert(b.outs@[0].1 is Scalar);
                let id = b.outs@[0].1->Scalar_0;
                assert(port_node(self.c, id as int, NodeKind::Plain, true));
                assert(shape_lanes(b.outs@[0].1) =~= seq![id]);
                assert(!lane_driven(self.c, shape_lanes(b.outs@[0].1)[0] as int));
                assert(!port_driven(self.c, b.outs@[0]));
                assert(ports_names(b.outs@)[0] == b.outs@[0].0@);
            }
        }
        let ghost cb = self.c;
        match self.check_outputs_driven(l, call_line, &b.outs) {
            Ok(()) => {},
            Err(x) => return Err(x),
        }
        let ghost cd = self.c;
        if self.linted.insert(l.name.clone()) {
            self.lint_static(l, &b);
        }
        if top_level {
            self.lint_reach(l, seq_lo, &b.outs);
        }
        self.stack.pop();
        proof {
            assert(self.stack@ =~= old(self).stack@);
            assert(self.c.nodes == cd.nodes);
            assert forall|i: int, j: int| 0 <= i < b.outs@.len() && 0 <= j < shape_lanes(b.outs@[i].1).len() implies #[trigger] lane_driven(
                self.c,
                shape_lanes(b.outs@[i].1)[j] as int,
            ) by {
                assert(shape_ok(b.outs@[i].1, cb.nodes@.len()));
                assert(lane_driven(cb, shape_lanes(b.outs@[i].1)[j] as int));
                assert(cd.root(shape_lanes(b.outs@[i].1)[j] as int) == cb.root(shape_lanes(b.outs@[i].1)[j] as int));
                assert(self.c.root(shape_lanes(b.outs@[i].1)[j] as int) == cd.root(shape_lanes(b.outs@[i].1)[j] as int));
            }
        }
        Ok((b.inputs, b.outs))
    }

    /// Refuses an output port with a lane that nothing drives (no incoming link and no
    /// fixed strength).
    fn check_outputs_driven(&mut self, l: &LogicDef, call_line: i32, outs: &Ports) -> (r: RvResult<()>)
        requires
            old(self).c.wf(),
            forall|i: int| 0 <= i < outs@.len() ==> shape_ok((#[trigger] outs@[i]).1, old(self).c.nodes@.len()),
        ensures
            kept(*old(self), *final(self)),
            final(self).warnings == old(self).warnings,
            final(self).c.nodes == old(self).c.nodes,
            forall|y: int| 0 <= y < old(self).c.nodes@.len() ==> final(self).c.root(y) == old(self).c.root(y),
            r is Ok <==> outs_driven(old(self).c, outs@),
            r matches Err(e) ==> e.line == call_line && e.col == 0 && e.len == 0 && exists|i: int| 0 <= i < outs@.len() && (forall|i2: int|
                0 <= i2 < i ==> port_driven(old(self).c, #[trigger] outs@[i2])) && !port_driven(old(self).c, outs@[i]) && e.msg@
                == "output port '"@ + outs@[i].0@ + "' of logic '"@ + l.name@ + "' is not driven (unconnected port)"@,
    {
        let mut i: usize = 0;
        while i < outs.len()
            invariant
                i <= outs@.len(),
                forall|p: int| 0 <= p < outs@.len() ==> shape_ok((#[trigger] outs@[p]).1, old(self).c.nodes@.len()),
                kept(*old(self), *self),
                self.warnings == old(self).warnings,
                self.c.nodes == old(self).c.nodes,
                forall|y: int| 0 <= y < old(self).c.nodes@.len() ==> self.c.root(y) == old(self).c.root(y),
                forall|p: int, j: int| 0 <= p < i && 0 <= j < shape_lanes(outs@[p].1).len() ==> #[trigger] lane_driven(
                    old(self).c,
                    shape_lanes(outs@[p].1)[j] as int,
                ),
            decreases outs@.len() - i,
        {
            let lanes = outs[i].1.lanes();
            assert(shape_ok(outs@[i as int].1, old(self).c.nodes@.len()));
            let mut j: usize = 0;
            while j < lanes.len()
                invariant
                    i < outs@.len(),
                    j <= lanes@.len(),
                    lanes@ == shape_lanes(outs@[i as int].1),
                    lanes_ok(lanes@, old(self).c.nodes@.len()),
                    kept(*old(self), *self),
                    self.warnings == old(self).warnings,
                    self.c.nodes == old(self).c.nodes,
                    forall|y: int| 0 <= y < old(self).c.nodes@.len() ==> self.c.root(y) == old(self).c.root(y),
                    forall|q: int| 0 <= q < j ==> #[trigger] lane_driven(old(self).c, shape_lanes(outs@[i as int].1)[q] as int),
                    forall|p: int, q: int| 0 <= p < i && 0 <= q < shape_lanes(outs@[p].1).len() ==> #[trigger] lane_driven(
                        old(self).c,
                        shape_lanes(outs@[p].1)[q] as int,
                    ),
                decreases lanes@.len() - j,
            {
                let node = lanes[j];
                let r = self.c.find(node);
                proof {
                    lemma_root_bound(&self.c, node as int);
                }
                if !self.c.nodes[r].has_incoming && self.c.nodes[r].kind != NodeKind::Const {
                    let m = cat5("output port '", outs[i].0.as_str(), "' of logic '", l.name.as_str(), "' is not driven (unconnected port)");
                    proof {
                        assert(!lane_driven(old(self).c, shape_lanes(outs@[i as int].1)[j as int] as int));
                        assert(!port_driven(old(self).c, outs@[i as int]));
                        assert forall|i2: int| 0 <= i2 < i implies port_driven(old(self).c, #[trigger] outs@[i2]) by {
                            assert forall|q: int| 0 <= q < shape_lanes(outs@[i2].1).len() implies #[trigger] lane_driven(
                                old(self).c,
                                shape_lanes(outs@[i2].1)[q] as int,
                            ) by {
                                assert(lane_driven(old(self).c, shape_lanes(outs@[i2].1)[q] as int));
                            }
                        }
                    }
                    return fail(call_line, m);
                }
                j += 1;
            }
            proof {
                assert forall|p: int, q: int| 0 <= p <= i && 0 <= q < shape_lanes(outs@[p].1).len() implies #[trigger] lane_driven(
                    old(self).c,
                    shape_lanes(outs@[p].1)[q] as int,
                ) by {
                    if p == i {
                        assert(lane_driven(old(self).c, shape_lanes(outs@[i as int].1)[q] as int));
                    }
                }
            }
            i += 1;
        }
        Ok(())
    }

    /// Design-rule warnings from the declarations of `l`: floating regs (connected to
    /// nothing; a comparator/repeater reg when neither its back nor its side is driven and
    /// its output drives nothing), floating bus regs (every lane floating), wires that no
    /// chain uses, and input ports that drive nothing. Names are reported in sorted order.
    fn lint_static(&mut self, l: &LogicDef, b: &Body)
        requires
            old(self).c.wf(),
            b.nodes_ok(old(self).c.nodes@.len()),
        ensures
            kept(*old(self), *final(self)),
            final(self).c.nodes == old(self).c.nodes,
            forall|y: int| 0 <= y < old(self).c.nodes@.len() ==> #[trigger] final(self).c.root(y) == old(self).c.root(y),
            final(self).c.nodes@.len() == old(self).c.nodes@.len(),
            final(self).warnings@.len() >= old(self).warnings@.len(),
            final(self).warnings@.subrange(0, old(self).warnings@.len() as int) == old(self).warnings@,
            (exists|name: Seq<char>| #[trigger] floating_reg(*old(self), *l, *b, name)) ==> has_floating_warning(
                final(self).warnings@,
                old(self).warnings@.len() as int,
            ),
    {
        let ghost n = self.c.nodes@.len();
        let ghost base = old(self).warnings@.len() as int;
        let ghost hyp = exists|name: Seq<char>| #[trigger] floating_reg(*old(self), *l, *b, name);
        let keys = keys_of(&b.scope);
        let names = sort_strs(&keys);
        let mut reported: Vec<usize> = Vec::new();
        let mut k: usize = 0;
        while k < names.len()
            invariant
                self.c.nodes == old(self).c.nodes,
                forall|y: int| 0 <= y < n ==> self.c.root(y) == old(self).c.root(y),
                forall|a: int| 0 <= a < k ==> floating_reg(*old(self), *l, *b, (#[trigger] names@[a])@) ==> reported@.len() > 0,
                reported@.len() > 0 ==> has_floating_warning(self.warnings@, base),
                base == old(self).warnings@.len(),
                k <= names@.len(),
                kept(*old(self), *self),
                self.c.nodes@.len() == n,
                n == old(self).c.nodes@.len(),
                b.nodes_ok(n),
                self.warnings@.len() >= old(self).warnings@.len(),
                self.warnings@.subrange(0, old(self).warnings@.len() as int) == old(self).warnings@,
            decreases names@.len() - k,
        {
            let name = names[k].as_str();
            k += 1;
            if is_port_name(l, name) {
                continue;
            }
            let line = match b.decl_lines.get(name) {
                Some(x) => *x,
                None => 0,
            };
            let ghost w0 = self.warnings@;
            let node = match b.scope.get(name) {
                Some(x) => *x,
                None => continue,
            };
            if let Some(pr) = b.side_regs.get(name) {
                let (back, side) = *pr;
                let rb = self.c.find(back);
                proof {
                    lemma_root_bound(&self.c, back as int);
                }
                let rs = self.c.find(side);
                proof {
                    lemma_root_bound(&self.c, side as int);
                }
                let ro = self.c.find(node);
                proof {
                    lemma_root_bound(&self.c, node as int);
                }
                if !self.c.nodes[rb].has_incoming && !self.c.nodes[rs].has_incoming && !self.c.nodes[ro].has_outgoing
                    && !self.c.nodes[ro].is_out_port {
                    let m = cat5("reg '", name, "' in logic '", l.name.as_str(), "' is not connected to anything");
                    lint(&mut self.warnings, line, "floating-reg", m);
                    proof {
                        assert(self.warnings@.subrange(0, old(self).warnings@.len() as int) =~= w0.subrange(0, old(self).warnings@.len() as int));
                        assert(self.warnings@.subrange(0, w0.len() as int) =~= w0);
                        if reported@.len() > 0 {
                            lemma_floating_grow(w0, self.warnings@, base);
                        }
                    }
                }
                continue;
            }
            let r = self.c.find(node);
            proof {
                lemma_root_bound(&self.c, node as int);
            }
            let nd = &self.c.nodes[r];
            if nd.kind != NodeKind::Input && !nd.is_out_port && !nd.has_incoming && !nd.has_outgoing && !has_node(&reported, r) {
                reported.push(r);
                let m = cat5("reg '", name, "' in logic '", l.name.as_str(), "' is not connected to anything");
                lint(&mut self.warnings, line, "floating-reg", m);
                proof {
                    assert(self.warnings@.subrange(0, old(self).warnings@.len() as int) =~= w0.subrange(0, old(self).warnings@.len() as int));
                    reveal_strlit("floating-reg");
                    let j = self.warnings@.len() - 1;
                    assert(self.warnings@[j] == self.warnings@.last());
                    assert(has_floating_warning(self.warnings@, base));
                }
            }
        }
        let ghost fl = has_floating_warning(self.warnings@, base);
        proof {
            if hyp {
                let name0 = choose|name: Seq<char>| #[trigger] floating_reg(*old(self), *l, *b, name);
                lemma_assoc_idx(b.scope.entries@, name0);
                let ix = assoc_idx(b.scope.entries@, name0).unwrap();
                assert(keys@[ix]@ == name0);
                assert(strs_view(keys@)[ix] == name0);
                assert(strs_view(keys@).contains(name0));
                strs_view(keys@).to_multiset_ensures();
                strs_view(names@).to_multiset_ensures();
                assert(strs_view(keys@).to_multiset().count(name0) > 0);
                assert(strs_view(names@).to_multiset().count(name0) > 0);
                assert(strs_view(names@).contains(name0));
                let a = choose|a: int| 0 <= a < strs_view(names@).len() && strs_view(names@)[a] == name0;
                assert(names@[a]@ == name0);
                assert(floating_reg(*old(self), *l, *b, names@[a]@));
            }
        }
        let bus_list = sort_strs(&keys_of(&b.buses));
        let mut k: usize = 0;
        while k < bus_list.len()
            invariant
                fl ==> has_floating_warning(self.warnings@, base),
                hyp ==> fl,
                base == old(self).warnings@.len(),
                k <= bus_list@.len(),
                kept(*old(self), *self),
                self.c.nodes@.len() == n,
                self.c.nodes == old(self).c.nodes,
                forall|y: int| 0 <= y < n ==> #[trigger] self.c.root(y) == old(self).c.root(y),
                n == old(self).c.nodes@.len(),
                b.nodes_ok(n),
                self.warnings@.len() >= old(self).warnings@.len(),
                self.warnings@.subrange(0, old(self).warnings@.len() as int) == old(self).warnings@,
            decreases bus_list@.len() - k,
        {
            let name = bus_list[k].as_str();
            k += 1;
            if is_port_name(l, name) {
                continue;
            }
            let line = match b.decl_lines.get(name) {
                Some(x) => *x,
                None => 0,
            };
            let outs = match b.buses.get(name) {
                Some(v) => v,
                None => continue,
            };
            assert(lanes_ok(outs@, n));
            let mut all_floating = true;
            if let Some(pr) = b.bus_side_regs.get(name) {
                let backs = &pr.0;
                let sides = &pr.1;
                assert(lanes_ok(backs@, n) && lanes_ok(sides@, n) && backs@.len() == outs@.len() && sides@.len() == outs@.len());
                let mut i: usize = 0;
                while i < outs.len()
                    invariant
                        fl ==> has_floating_warning(self.warnings@, base),
                        hyp ==> fl,
                        base == old(self).warnings@.len(),
                        i <= outs@.len(),
                        backs@.len() == outs@.len(),
                        sides@.len() == outs@.len(),
                        lanes_ok(outs@, n),
                        lanes_ok(backs@, n),
                        lanes_ok(sides@, n),
                        kept(*old(self), *self),
                        self.c.nodes@.len() == n,
                        self.c.nodes == old(self).c.nodes,
                        forall|y: int| 0 <= y < n ==> #[trigger] self.c.root(y) == old(self).c.root(y),
                        self.warnings == old(self).warnings || self.warnings@.len() >= old(self).warnings@.len(),
                        self.warnings@.len() >= old(self).warnings@.len(),
                        self.warnings@.subrange(0, old(self).warnings@.len() as int) == old(self).warnings@,
                    decreases outs@.len() - i,
                {
                    let rb = self.c.find(backs[i]);
                    proof {
                        lemma_root_bound(&self.c, backs@[i as int] as int);
                    }
                    let rs = self.c.find(sides[i]);
                    proof {
                        lemma_root_bound(&self.c, sides@[i as int] as int);
                    }
                    let ro = self.c.find(outs[i]);
                    proof {
                        lemma_root_bound(&self.c, outs@[i as int] as int);
                    }
                    if self.c.nodes[rb].has_incoming || self.c.nodes[rs].has_incoming || self.c.nodes[ro].has_outgoing
                        || self.c.nodes[ro].is_out_port {
                        all_floating = false;
                        break;
                    }
                    i += 1;
                }
            } else {
                let mut i: usize = 0;
                while i < outs.len()
                    invariant
                        fl ==> has_floating_warning(self.warnings@, base),
                        hyp ==> fl,
                        base == old(self).warnings@.len(),
                        i <= outs@.len(),
                        lanes_ok(outs@, n),
                        kept(*old(self), *self),
                        self.c.nodes@.len() == n,
                        self.c.nodes == old(self).c.nodes,
                        forall|y: int| 0 <= y < n ==> #[trigger] self.c.root(y) == old(self).c.root(y),
                        self.warnings@.len() >= old(self).warnings@.len(),
                        self.warnings@.subrange(0, old(self).warnings@.len() as int) == old(self).warnings@,
                    decreases outs@.len() - i,
                {
                    let r = self.c.find(outs[i]);
                    proof {
                        lemma_root_bound(&self.c, outs@[i as int] as int);
                    }
                    let nd = &self.c.nodes[r];
                    if nd.kind == NodeKind::Input || nd.is_out_port || nd.has_incoming || nd.has_outgoing {
                        all_floating = false;
                        break;
                    }
                    i += 1;
                }
            }
            if all_floating {
                let ghost w0 = self.warnings@;
                let m = cat5("bus reg '", name, "' in logic '", l.name.as_str(), "' is not connected to anything");
                lint(&mut self.warnings, line, "floating-reg", m);
                proof {
                    assert(self.warnings@.subrange(0, old(self).warnings@.len() as int) =~= w0.subrange(0, old(self).warnings@.len() as int));
                    assert(self.warnings@.subrange(0, w0.len() as int) =~= w0);
                    if fl {
                        lemma_floating_grow(w0, self.warnings@, base);
                    }
                }
            }
        }
        let w_list = sort_strs(&b.wire_names.items);
        let mut k: usize = 0;
        while k < w_list.len()
            invariant
                fl ==> has_floating_warning(self.warnings@, base),
                hyp ==> fl,
                base == old(self).warnings@.len(),
                k <= w_list@.len(),
                kept(*old(self), *self),
                self.c.nodes@.len() == n,
                self.c.nodes == old(self).c.nodes,
                forall|y: int| 0 <= y < n ==> #[trigger] self.c.root(y) == old(self).c.root(y),
                b.nodes_ok(n),
                self.warnings@.len() >= old(self).warnings@.len(),
                self.warnings@.subrange(0, old(self).warnings@.len() as int) == old(self).warnings@,
            decreases w_list@.len() - k,
        {
            let wn = w_list[k].as_str();
            if !b.used_wires.contains(wn) {
                let line = match b.decl_lines.get(wn) {
                    Some(x) => *x,
                    None => 0,
                };
                let ghost w0 = self.warnings@;
                let m = cat5("wire '", wn, "' in logic '", l.name.as_str(), "' is never used in a chain");
                lint(&mut self.warnings, line, "unused-wire", m);
                proof {
                    assert(self.warnings@.subrange(0, old(self).warnings@.len() as int) =~= w0.subrange(0, old(self).warnings@.len() as int));
                }
            }
            k += 1;
        }
        let mut k: usize = 0;
        while k < b.inputs.len()
            invariant
                fl ==> has_floating_warning(self.warnings@, base),
                hyp ==> fl,
                base == old(self).warnings@.len(),
                k <= b.inputs@.len(),
                kept(*old(self), *self),
                self.c.nodes@.len() == n,
                self.c.nodes == old(self).c.nodes,
                forall|y: int| 0 <= y < n ==> #[trigger] self.c.root(y) == old(self).c.root(y),
                b.nodes_ok(n),
                self.warnings@.len() >= old(self).warnings@.len(),
                self.warnings@.subrange(0, old(self).warnings@.len() as int) == old(self).warnings@,
            decreases b.inputs@.len() - k,
        {
            let lanes = b.inputs[k].1.lanes();
            assert(shape_ok(b.inputs@[k as int].1, n));
            assert(lanes_ok(lanes@, n));
            let mut used = false;
            let mut i: usize = 0;
            while i < lanes.len()
                invariant
                    fl ==> has_floating_warning(self.warnings@, base),
                    hyp ==> fl,
                    base == old(self).warnings@.len(),
                    i <= lanes@.len(),
                    lanes_ok(lanes@, n),
                    kept(*old(self), *self),
                    self.c.nodes@.len() == n,
                    self.c.nodes == old(self).c.nodes,
                    forall|y: int| 0 <= y < n ==> #[trigger] self.c.root(y) == old(self).c.root(y),
                    self.warnings == old(self).warnings || self.warnings@.len() >= old(self).warnings@.len(),
                    self.warnings@.len() >= old(self).warnings@.len(),
                    self.warnings@.subrange(0, old(self).warnings@.len() as int) == old(self).warnings@,
                decreases lanes@.len() - i,
            {
                let r = self.c.find(lanes[i]);
                proof {
                    lemma_root_bound(&self.c, lanes@[i as int] as int);
                }
                if self.c.nodes[r].has_outgoing {
                    used = true;
                    break;
                }
                i += 1;
            }
            if !used {
                let name = b.inputs[k].0.as_str();
                let pline = port_line(l, name);
                let ghost w0 = self.warnings@;
                let m = cat5("input port '", name, "' of logic '", l.name.as_str(), "' is never used");
                lint(&mut self.warnings, pline, "unused-input", m);
                proof {
                    assert(self.warnings@.subrange(0, old(self).warnings@.len() as int) =~= w0.subrange(0, old(self).warnings@.len() as int));
                }
            }
            k += 1;
        }
    }

    /// Reachability warnings for a top-level instantiation, over the upper bounds of the
    /// values each point can reach: a torch created since sequential element `seq_lo`
    /// whose input can never be powered is always on; an output lane that can never be
    /// powered is unreachable.
    fn lint_reach(&mut self, l: &LogicDef, seq_lo: usize, outs: &Ports)
        requires
            old(self).c.wf(),
            forall|i: int| 0 <= i < outs@.len() ==> shape_ok((#[trigger] outs@[i]).1, old(self).c.nodes@.len()),
        ensures
            kept(*old(self), *final(self)),
            final(self).c.nodes == old(self).c.nodes,
            forall|y: int| 0 <= y < old(self).c.nodes@.len() ==> #[trigger] final(self).c.root(y) == old(self).c.root(y),
            final(self).c.nodes@.len() == old(self).c.nodes@.len(),
            final(self).warnings@.len() >= old(self).warnings@.len(),
            final(self).warnings@.subrange(0, old(self).warnings@.len() as int) == old(self).warnings@,
            (exists|q: Seq<i32>, si: int| #![trigger old(self).c.potential_bound(q), old(self).c.seqs@[si]] old(self).c.potential_bound(q)
                && seq_lo <= si < old(self).c.seqs@.len() && old(self).c.seqs@[si].kind == SeqKind::Torch && q[old(self).c.root(
                old(self).c.seqs@[si].in_ as int,
            )] == 0) ==> has_rule_warning(final(self).warnings@, old(self).warnings@.len() as int, "always-on-torch"@),
            (exists|q: Seq<i32>, k: int, i: int| #![trigger old(self).c.potential_bound(q), shape_lanes(outs@[k].1)[i]] old(self).c.potential_bound(q)
                && 0 <= k < outs@.len() && 0 <= i < shape_lanes(outs@[k].1).len() && q[old(self).c.root(shape_lanes(outs@[k].1)[i] as int)]
                == 0) ==> has_rule_warning(final(self).warnings@, old(self).warnings@.len() as int, "unreachable-output"@),
    {
        let ghost n = self.c.nodes@.len();
        let ghost base = old(self).warnings@.len() as int;
        let pot = self.c.lint_potentials();
        let mut si = seq_lo;
        while si < self.c.seqs.len()
            invariant
                self.c.seqs == old(self).c.seqs,
                self.c.nodes == old(self).c.nodes,
                forall|y: int| 0 <= y < n ==> #[trigger] self.c.root(y) == old(self).c.root(y),
                n == old(self).c.nodes@.len(),
                base == old(self).warnings@.len(),
                forall|q: Seq<i32>| #[trigger] old(self).c.potential_bound(q) ==> crate::circuit::below(pot@, q),
                crate::circuit::all_strengths(pot@),
                seq_lo <= si || si == seq_lo,
                forall|s2: int| seq_lo <= s2 < si && old(self).c.seqs@[s2].kind == SeqKind::Torch && pot@[old(self).c.root(
                    #[trigger] old(self).c.seqs@[s2].in_ as int)] == 0 ==> has_rule_warning(self.warnings@, base, "always-on-torch"@),
                kept(*old(self), *self),
                self.c.nodes@.len() == n,
                pot@.len() == n,
                self.warnings@.len() >= old(self).warnings@.len(),
                self.warnings@.subrange(0, old(self).warnings@.len() as int) == old(self).warnings@,
            decreases self.c.seqs@.len() - si,
        {
            let ghost w00 = self.warnings@;
            if self.c.seqs[si].kind == SeqKind::Torch {
                let in_ = self.c.seqs[si].in_;
                assert(self.c.seq_wf(self.c.seqs@[si as int]));
                let r = self.c.find(in_);
                proof {
                    lemma_root_bound(&self.c, in_ as int);
                }
                if pot[r] == 0 {
                    let label = self.c.seqs[si].label.clone();
                    let line = self.c.seqs[si].line;
                    let ghost w0 = self.warnings@;
                    let m = cat3("torch '", label.as_str(), "' is always ON (its input can never be powered)");
                    lint(&mut self.warnings, line, "always-on-torch", m);
                    proof {
                        assert(self.warnings@.subrange(0, old(self).warnings@.len() as int) =~= w0.subrange(0, old(self).warnings@.len() as int));
                        reveal_strlit("always-on-torch");
                        assert(self.warnings@[self.warnings@.len() - 1] == self.warnings@.last());
                        assert(has_rule_warning(self.warnings@, base, "always-on-torch"@));
                    }
                }
                proof {
                    assert(self.warnings@.len() >= w00.len() && self.warnings@.subrange(0, w00.len() as int) =~= w00) by {
                        if self.warnings@.len() > w00.len() {
                            assert(self.warnings@.drop_last() == w00);
                        }
                    }
                    assert forall|s2: int| seq_lo <= s2 < si + 1 && old(self).c.seqs@[s2].kind == SeqKind::Torch && pot@[old(self).c.root(
                        #[trigger] old(self).c.seqs@[s2].in_ as int)] == 0 implies has_rule_warning(self.warnings@, base, "always-on-torch"@) by {
                        if s2 < si {
                            lemma_rule_grow(w00, self.warnings@, base, "always-on-torch"@);
                        }
                    }
                }
            }
            si += 1;
        }
        let ghost tfl = has_rule_warning(self.warnings@, base, "always-on-torch"@);
        proof {
            if exists|q: Seq<i32>, si2: int| #![trigger old(self).c.potential_bound(q), old(self).c.seqs@[si2]] old(self).c.potential_bound(q)
                && seq_lo <= si2 < old(self).c.seqs@.len() && old(self).c.seqs@[si2].kind == SeqKind::Torch && q[old(self).c.root(
                old(self).c.seqs@[si2].in_ as int,
            )] == 0 {
                let (q, si2) = choose|q: Seq<i32>, si2: int| #![trigger old(self).c.potential_bound(q), old(self).c.seqs@[si2]] old(self).c.potential_bound(q)
                    && seq_lo <= si2 < old(self).c.seqs@.len() && old(self).c.seqs@[si2].kind == SeqKind::Torch && q[old(self).c.root(
                    old(self).c.seqs@[si2].in_ as int,
                )] == 0;
                let rr = old(self).c.root(old(self).c.seqs@[si2].in_ as int);
                assert(old(self).c.seq_wf(old(self).c.seqs@[si2]));
                lemma_root_bound(&old(self).c, old(self).c.seqs@[si2].in_ as int);
                assert(crate::circuit::below(pot@, q));
                assert(pot@[rr] <= q[rr]);
                assert(crate::circuit::strength(pot@[rr]));
                assert(pot@[rr] == 0);
            }
        }
        let mut k: usize = 0;
        while k < outs.len()
            invariant
                tfl ==> has_rule_warning(self.warnings@, base, "always-on-torch"@),
                base == old(self).warnings@.len(),
                self.c.nodes == old(self).c.nodes,
                forall|y: int| 0 <= y < n ==> #[trigger] self.c.root(y) == old(self).c.root(y),
                forall|q: Seq<i32>| #[trigger] old(self).c.potential_bound(q) ==> crate::circuit::below(pot@, q),
                crate::circuit::all_strengths(pot@),
                forall|k2: int, i2: int| 0 <= k2 < k && 0 <= i2 < shape_lanes(outs@[k2].1).len() && pot@[old(self).c.root(#[trigger] shape_lanes(outs@[k2].1)[i2] as int)] == 0 ==> has_rule_warning(self.warnings@, base, "unreachable-output"@),
                k <= outs@.len(),
                kept(*old(self), *self),
                self.c.nodes@.len() == n,
                n == old(self).c.nodes@.len(),
                pot@.len() == n,
                forall|i: int| 0 <= i < outs@.len() ==> shape_ok((#[trigger] outs@[i]).1, n),
                self.warnings@.len() >= old(self).warnings@.len(),
                self.warnings@.subrange(0, old(self).warnings@.len() as int) == old(self).warnings@,
            decreases outs@.len() - k,
        {
            let lanes = outs[k].1.lanes();
            assert(shape_ok(outs@[k as int].1, n));
            assert(lanes_ok(lanes@, n));
            let w = lanes.len();
            let mut i: usize = 0;
            while i < w
                invariant
                    tfl ==> has_rule_warning(self.warnings@, base, "always-on-torch"@),
                    base == old(self).warnings@.len(),
                    self.c.nodes == old(self).c.nodes,
                    forall|y: int| 0 <= y < n ==> #[trigger] self.c.root(y) == old(self).c.root(y),
                    forall|q: Seq<i32>| #[trigger] old(self).c.potential_bound(q) ==> crate::circuit::below(pot@, q),
                    crate::circuit::all_strengths(pot@),
                    forall|k2: int, i2: int| 0 <= k2 < k && 0 <= i2 < shape_lanes(outs@[k2].1).len() && pot@[old(self).c.root(#[trigger] shape_lanes(outs@[k2].1)[i2] as int)] == 0 ==> has_rule_warning(self.warnings@, base, "unreachable-output"@),
                    lanes@ == shape_lanes(outs@[k as int].1),
                    forall|i2: int| 0 <= i2 < i && pot@[old(self).c.root(#[trigger] lanes@[i2] as int)] == 0 ==> has_rule_warning(self.warnings@, base, "unreachable-output"@),
                    w == lanes@.len(),
                    k < outs@.len(),
                    i <= w,
                    lanes_ok(lanes@, n),
                    kept(*old(self), *self),
                    self.c.nodes@.len() == n,
                    pot@.len() == n,
                    self.warnings@.len() >= old(self).warnings@.len(),
                    self.warnings@.subrange(0, old(self).warnings@.len() as int) == old(self).warnings@,
                decreases w - i,
            {
                let ghost w00 = self.warnings@;
                let r = self.c.find(lanes[i]);
                proof {
                    lemma_root_bound(&self.c, lanes@[i as int] as int);
                }
                if pot[r] == 0 {
                    let name = outs[k].0.as_str();
                    let pline = port_line(l, name);
                    let disp = if w == 1 {
                        own(name)
                    } else {
                        let t = format_uint(i as u64, 10);
                        cat4(name, "[", t.as_str(), "]")
                    };
                    let ghost w0 = self.warnings@;
                    let m = cat5("output port '", disp.as_str(), "' of logic '", l.name.as_str(), "' can never be powered (always 0)");
                    lint(&mut self.warnings, pline, "unreachable-output", m);
                    proof {
                        assert(self.warnings@.subrange(0, old(self).warnings@.len() as int) =~= w0.subrange(0, old(self).warnings@.len() as int));
                        reveal_strlit("unreachable-output");
                        assert(self.warnings@[self.warnings@.len() - 1] == self.warnings@.last());
                        assert(has_rule_warning(self.warnings@, base, "unreachable-output"@));
                    }
                }
                proof {
                    assert(self.warnings@.len() >= w00.len() && self.warnings@.subrange(0, w00.len() as int) =~= w00) by {
                        if self.warnings@.len() > w00.len() {
                            assert(self.warnings@.drop_last() == w00);
                        }
                    }
                    if tfl {
                        lemma_rule_grow(w00, self.warnings@, base, "always-on-torch"@);
                    }
                    assert(r == old(self).c.root(lanes@[i as int] as int));
                    assert forall|k2: int, i2: int| 0 <= k2 < k && 0 <= i2 < shape_lanes(outs@[k2].1).len() && pot@[old(self).c.root(#[trigger] shape_lanes(outs@[k2].1)[i2] as int)] == 0 implies has_rule_warning(self.warnings@, base, "unreachable-output"@) by {
                        lemma_rule_grow(w00, self.warnings@, base, "unreachable-output"@);
                    }
                    assert forall|i2: int| 0 <= i2 < i + 1 && pot@[old(self).c.root(#[trigger] lanes@[i2] as int)] == 0 implies has_rule_warning(self.warnings@, base, "unreachable-output"@) by {
                        if i2 < i {
                            lemma_rule_grow(w00, self.warnings@, base, "unreachable-output"@);
                        }
                    }
                }
                i += 1;
            }
            proof {
                assert forall|k2: int, i2: int| 0 <= k2 < k + 1 && 0 <= i2 < shape_lanes(outs@[k2].1).len() && pot@[old(self).c.root(#[trigger] shape_lanes(outs@[k2].1)[i2] as int)] == 0 implies has_rule_warning(self.warnings@, base, "unreachable-output"@) by {
                    if k2 == k {
                        assert(shape_lanes(outs@[k2].1)[i2] == lanes@[i2]);
                    }
                }
            }
            k += 1;
        }
        proof {
            if exists|q: Seq<i32>, k3: int, i3: int| #![trigger old(self).c.potential_bound(q), shape_lanes(outs@[k3].1)[i3]] old(self).c.potential_bound(q)
                && 0 <= k3 < outs@.len() && 0 <= i3 < shape_lanes(outs@[k3].1).len() && q[old(self).c.root(shape_lanes(outs@[k3].1)[i3] as int)]
                == 0 {
                let (q, k3, i3) = choose|q: Seq<i32>, k3: int, i3: int| #![trigger old(self).c.potential_bound(q), shape_lanes(outs@[k3].1)[i3]] old(self).c.potential_bound(q)
                    && 0 <= k3 < outs@.len() && 0 <= i3 < shape_lanes(outs@[k3].1).len() && q[old(self).c.root(shape_lanes(outs@[k3].1)[i3] as int)]
                    == 0;
                let x = shape_lanes(outs@[k3].1)[i3] as int;
                assert(shape_ok(outs@[k3].1, n));
                assert(lanes_ok(shape_lanes(outs@[k3].1), n));
                lemma_root_bound(&old(self).c, x);
                let rr = old(self).c.root(x);
                assert(crate::circuit::below(pot@, q));
                assert(pot@[rr] <= q[rr]);
                assert(crate::circuit::strength(pot@[rr]));
            }
        }
    }

    /// Adds one non-dust chain element numbered `idx` after the segment starting at `prev`
    /// with loss `decay`: its input and output nodes, the edge into it, and the element.
    /// Returns its output node.
    fn push_chain_elem(&mut self, e: Elem, idx: usize, prev: usize, decay: i32, prefix: &str, label: &str) -> (no: usize)
        requires
            old(self).c.wf(),
            prev < old(self).c.nodes@.len(),
            decay >= 0,
            is_zero_rep(e) || is_seq_elem(e),
        ensures
            ({
                let n = old(self).c.nodes@.len() as int;
                let here = chain_step(e, idx as nat, prev, decay, n, prefix@, label@);
                &&& final(self).c.wf()
                &&& final(self).c.cfg == old(self).c.cfg
                &&& no == n + 1
                &&& final(self).c.edges@ == old(self).c.edges@ + here.0
                &&& final(self).c.zero_reps@ == old(self).c.zero_reps@ + here.3
                &&& final(self).c.nodes@.len() == n + 2
                &&& same_names(old(self).c.nodes@, final(self).c.nodes@.subrange(0, n))
                &&& final(self).c.nodes@[n].name@ == here.1[0]
                &&& final(self).c.nodes@[n + 1].name@ == here.1[1]
                &&& final(self).c.nodes@[n].kind == NodeKind::Plain
                &&& final(self).c.nodes@[n + 1].kind == NodeKind::Plain
                &&& final(self).c.seqs@.len() == old(self).c.seqs@.len() + here.2.len()
                &&& final(self).c.seqs@.subrange(0, old(self).c.seqs@.len() as int) == old(self).c.seqs@
                &&& forall|k: int| 0 <= k < here.2.len() ==> seq_view(#[trigger] final(self).c.seqs@[old(self).c.seqs@.len() + k]) == here.2[k]
                    && final(self).c.seqs@[old(self).c.seqs@.len() + k].side_in is None
            }),
            final(self).stack == old(self).stack,
            final(self).linted == old(self).linted,
            final(self).counter == old(self).counter,
            final(self).warnings == old(self).warnings,
    {
        let ghost n: int = self.c.nodes@.len() as int;
        let ghost c0 = self.c;
        let t = format_uint(idx as u64, 10);
        let ni = self.c.new_node(cat5(prefix, ".", label, "#i", t.as_str()), NodeKind::Plain);
        let no = self.c.new_node(cat5(prefix, ".", label, "#o", t.as_str()), NodeKind::Plain);
        let ghost c1 = self.c;
        proof {
            assert(c1.nodes@ == c0.nodes@.push(c1.nodes@[n]).push(c1.nodes@[n + 1]));
        }
        self.c.add_edge(prev, ni, decay);
        let ghost c2 = self.c;
        let ghost s0 = self.c.seqs@;
        if e.k == 'r' && e.n == 0 {
            self.c.add_zero_rep(ni, no);
        } else {
            let lab0 = cat5(prefix, ".", label, "[", t.as_str());
            let lab = cat2(lab0.as_str(), "]");
            if e.k == 'C' || e.k == 'S' {
                let kind = if e.k == 'S' { SeqKind::CompSub } else { SeqKind::CompCmp };
                self.c.add_comp(kind, ni, None, no, lab, e.line);
            } else {
                let (kind, dly) = if e.k == 'r' {
                    (SeqKind::Rep, e.n)
                } else if e.k == 't' {
                    (SeqKind::Torch, 1i32)
                } else {
                    let mode = if e.n == 1 {
                        ObsMode::Rise
                    } else if e.n == 2 {
                        ObsMode::Fall
                    } else if e.n == 3 {
                        ObsMode::Edge
                    } else {
                        ObsMode::Any
                    };
                    (SeqKind::Observer(mode), 2i32)
                };
                self.c.add_seq(kind, dly, ni, no, lab, e.line);
            }
        }
        proof {
            let here = chain_step(e, idx as nat, prev, decay, n, prefix@, label@);
            assert(self.c.edges@ =~= c0.edges@ + here.0);
            assert(self.c.zero_reps@ =~= c0.zero_reps@ + here.3);
            assert forall|z: int| 0 <= z < n implies (#[trigger] self.c.nodes@.subrange(0, n)[z]).name
                == c0.nodes@[z].name && self.c.nodes@.subrange(0, n)[z].kind == c0.nodes@[z].kind by {
                assert(c1.nodes@[z] == c0.nodes@[z]);
                assert(c2.nodes@[z].name == c1.nodes@[z].name);
            }
            assert(c2.nodes@[n].name == c1.nodes@[n].name);
            assert(c2.nodes@[n + 1].name == c1.nodes@[n + 1].name);
            if !is_zero_rep(e) {
                assert(self.c.seqs@.drop_last() == s0);
                assert(self.c.seqs@.subrange(0, s0.len() as int) =~= s0);
                assert(self.c.seqs@[s0.len() as int] == self.c.seqs@.last());
            } else {
                assert(self.c.seqs@.subrange(0, s0.len() as int) =~= s0);
            }
        }
        no
    }

    /// Builds one scalar chain `fi -chunks- ti` into the circuit: the middle chunks are
    /// expanded (wires into their element sequences) and laid out as `chain_from` says;
    /// the wires expanded are added to `used_wires`. `label` names the internal nodes.
    pub fn build_chain_body(
        &mut self,
        label: &str,
        prefix: &str,
        fi: usize,
        ti: usize,
        chunks: &Vec<String>,
        wire_seq: &StrMap<(i32, Vec<String>)>,
        scope: &StrMap<usize>,
        wire_names: &StrSet,
        bus_names: &StrSet,
        used_wires: &mut StrSet,
        line: i32,
    ) -> (r: RvResult<()>)
        requires
            old(self).c.wf(),
            fi < old(self).c.nodes@.len(),
            ti < old(self).c.nodes@.len(),
        ensures
            final(self).c.wf(),
            final(self).c.cfg == old(self).c.cfg,
            final(self).stack == old(self).stack,
            final(self).linted == old(self).linted,
            final(self).counter == old(self).counter,
            final(self).warnings == old(self).warnings,
            final(self).c.nodes@.len() >= old(self).c.nodes@.len(),
            same_names(old(self).c.nodes@, final(self).c.nodes@.subrange(0, old(self).c.nodes@.len() as int)),
            forall|q: Seq<char>| #[trigger] old(used_wires).has(q) ==> final(used_wires).has(q),
            match expand(
                chunks@,
                (ChainScope { wire_seq: *wire_seq, scope: *scope, wires: *wire_names, buses: *bus_names, line }),
                seq![],
            ) {
                Ok(es) => {
                    let c0 = old(self).c;
                    let c1 = final(self).c;
                    &&& r is Ok
                    &&& chain_built(c1, c0.edges@.len() as int, c0.nodes@.len() as int, c0.seqs@.len() as int, c0.zero_reps@.len() as int)
                        == chain_from(es, 0, fi, 0, c0.nodes@.len() as int, ti, prefix@, label@)
                    &&& c1.edges@.subrange(0, c0.edges@.len() as int) == c0.edges@
                    &&& c1.seqs@.subrange(0, c0.seqs@.len() as int) == c0.seqs@
                    &&& c1.zero_reps@.subrange(0, c0.zero_reps@.len() as int) == c0.zero_reps@
                    &&& forall|k: int| c0.nodes@.len() <= k < c1.nodes@.len() ==> (#[trigger] c1.nodes@[k]).kind == NodeKind::Plain
                    &&& forall|k: int| c0.seqs@.len() <= k < c1.seqs@.len() ==> (#[trigger] c1.seqs@[k]).side_in is None
                },
                Err(x) => r matches Err(e) && e@ == x,
            },
    {
        let mut es: Vec<Elem> = Vec::new();
        let mut visited: Vec<String> = Vec::new();
        proof {
            assert(strs_view(visited@) =~= Seq::<Seq<char>>::empty());
            assert(Seq::<Seq<char>>::empty() == strs_view(visited@));
        }
        let ghost c0 = self.c;
        let ghost e0: int = c0.edges@.len() as int;
        let ghost n0: int = c0.nodes@.len() as int;
        let ghost s0: int = c0.seqs@.len() as int;
        let ghost z0: int = c0.zero_reps@.len() as int;
        match expand_chain_tokens(chunks, wire_seq, scope, wire_names, bus_names, line, &mut visited, used_wires, &mut es) {
            Ok(()) => {},
            Err(x) => return Err(x),
        }
        let ghost p = prefix@;
        let ghost l = label@;
        let ghost total = chain_from(es@, 0, fi, 0, n0, ti, p, l);
        proof {
            let b = chain_built(self.c, e0, n0, s0, z0);
            assert(b.0 =~= Seq::<CEdge>::empty());
            assert(b.1 =~= Seq::<Seq<char>>::empty());
            assert(b.2 =~= Seq::<(SeqKind, i32, usize, usize, Seq<char>, i32)>::empty());
            assert(b.3 =~= Seq::<ZeroRep>::empty());
            assert(total.0 =~= b.0 + total.0);
            assert(total.1 =~= b.1 + total.1);
            assert(total.2 =~= b.2 + total.2);
            assert(total.3 =~= b.3 + total.3);
            assert(self.c.edges@.subrange(0, e0) =~= c0.edges@);
            assert(self.c.seqs@.subrange(0, s0) =~= c0.seqs@);
            assert(self.c.zero_reps@.subrange(0, z0) =~= c0.zero_reps@);
            assert(self.c.nodes@.subrange(0, n0) =~= c0.nodes@);
        }
        let mut prev = fi;
        let mut decay: i32 = 0;
        let mut j: usize = 0;
        while j < es.len()
            invariant
                self.c.wf(),
                self.c.cfg == old(self).c.cfg,
                self.stack == old(self).stack,
                self.linted == old(self).linted,
                self.counter == old(self).counter,
                self.warnings == old(self).warnings,
                p == prefix@,
                l == label@,
                j <= es@.len(),
                prev < self.c.nodes@.len(),
                ti < self.c.nodes@.len(),
                decay >= 0,
                e0 <= self.c.edges@.len(),
                n0 <= self.c.nodes@.len(),
                s0 <= self.c.seqs@.len(),
                z0 <= self.c.zero_reps@.len(),
                e0 == c0.edges@.len(),
                n0 == c0.nodes@.len(),
                s0 == c0.seqs@.len(),
                z0 == c0.zero_reps@.len(),
                total == chain_from(es@, 0, fi, 0, n0, ti, p, l),
                total == chain_join(chain_built(self.c, e0, n0, s0, z0), chain_from(es@, j as int, prev, decay, self.c.nodes@.len() as int, ti, p, l)),
                self.c.edges@.subrange(0, e0) == c0.edges@,
                self.c.seqs@.subrange(0, s0) == c0.seqs@,
                self.c.zero_reps@.subrange(0, z0) == c0.zero_reps@,
                same_names(c0.nodes@, self.c.nodes@.subrange(0, n0)),
                forall|k: int| n0 <= k < self.c.nodes@.len() ==> (#[trigger] self.c.nodes@[k]).kind == NodeKind::Plain,
                forall|k: int| s0 <= k < self.c.seqs@.len() ==> (#[trigger] self.c.seqs@[k]).side_in is None,
            decreases es@.len() - j,
        {
            let e = es[j];
            let ghost cb = self.c;
            let ghost nn = self.c.nodes@.len() as int;
            if e.k == 'd' {
                decay = if decay < i32::MAX { decay + 1 } else { decay };
            } else if (e.k == 'r' && e.n >= 0) || e.k == 't' || e.k == 'o' || e.k == 'C' || e.k == 'S' {
                let ghost here = chain_step(e, (j + 1) as nat, prev, decay, nn, p, l);
                let ghost rest = chain_from(es@, j + 1, (nn + 1) as usize, 0, nn + 2, ti, p, l);
                let no = self.push_chain_elem(e, j + 1, prev, decay, prefix, label);
                proof {
                    lemma_built_step(cb, self.c, e0, n0, s0, z0, here);
                    lemma_join_assoc(chain_built(cb, e0, n0, s0, z0), here, rest);
                    assert forall|z: int| 0 <= z < n0 implies (#[trigger] self.c.nodes@.subrange(0, n0)[z]).name
                        == c0.nodes@[z].name && self.c.nodes@.subrange(0, n0)[z].kind == c0.nodes@[z].kind by {
                        assert(self.c.nodes@.subrange(0, nn)[z] == self.c.nodes@[z]);
                        assert(cb.nodes@.subrange(0, n0)[z] == cb.nodes@[z]);
                    }
                    assert forall|k: int| n0 <= k < self.c.nodes@.len() implies (#[trigger] self.c.nodes@[k]).kind == NodeKind::Plain by {
                        if k < nn {
                            assert(self.c.nodes@.subrange(0, nn)[k] == self.c.nodes@[k]);
                        }
                    }
                    assert forall|k: int| s0 <= k < self.c.seqs@.len() implies (#[trigger] self.c.seqs@[k]).side_in is None by {
                        if k < cb.seqs@.len() {
                            assert(self.c.seqs@.subrange(0, cb.seqs@.len() as int)[k] == self.c.seqs@[k]);
                        } else {
                            let q = k - cb.seqs@.len();
                            assert(self.c.seqs@[cb.seqs@.len() + q].side_in is None);
                        }
                    }
                }
                prev = no;
                decay = 0;
            }
            j += 1;
        }
        let ghost cb = self.c;
        self.c.add_edge(prev, ti, decay);
        proof {
            let here: ChainOut = (seq![CEdge { s: prev, d: ti, decay }], seq![], seq![], seq![]);
            assert(self.c.edges@ == cb.edges@ + here.0);
            assert(self.c.zero_reps@ =~= cb.zero_reps@ + here.3);
            assert(self.c.seqs@.subrange(0, cb.seqs@.len() as int) =~= cb.seqs@);
            assert forall|z: int| 0 <= z < cb.nodes@.len() implies (#[trigger] self.c.nodes@.subrange(0, cb.nodes@.len() as int)[z]).name
                == cb.nodes@[z].name && self.c.nodes@.subrange(0, cb.nodes@.len() as int)[z].kind == cb.nodes@[z].kind by {
                assert(self.c.nodes@.subrange(0, cb.nodes@.len() as int)[z] == self.c.nodes@[z]);
            }
            lemma_built_step(cb, self.c, e0, n0, s0, z0, here);
            let b = chain_built(cb, e0, n0, s0, z0);
            assert(chain_join(b, here) =~= total) by {
                assert(b.1 + here.1 =~= b.1);
                assert(b.2 + here.2 =~= b.2);
                assert(b.3 + here.3 =~= b.3);
            }
            assert forall|z: int| 0 <= z < n0 implies (#[trigger] self.c.nodes@.subrange(0, n0)[z]).name
                == c0.nodes@[z].name && self.c.nodes@.subrange(0, n0)[z].kind == c0.nodes@[z].kind by {
                assert(self.c.nodes@.subrange(0, n0)[z] == self.c.nodes@[z]);
                assert(cb.nodes@.subrange(0, n0)[z] == cb.nodes@[z]);
            }
        }
        Ok(())
    }

    /// Assigns element chunk `tok` to reg `name` (node `node_id`) after its declaration.
    /// Only a single dust element can be assigned this way; repeaters and comparators must
    /// be given at the declaration, torches and observers belong in chains, a const reg
    /// takes a bare strength, and a strength literal with an element is refused.
    fn apply_elem(&mut self, node_id: usize, name: &str, tok: &str, strength: i32, qual: Qual, line: i32) -> (r: RvResult<()>)
        requires
            old(self).c.wf(),
            node_id < old(self).c.nodes@.len(),
        ensures
            final(self).c.wf(),
            final(self).c.cfg == old(self).c.cfg,
            final(self).c.nodes@.len() == old(self).c.nodes@.len(),
            final(self).c.seqs == old(self).c.seqs,
            final(self).stack == old(self).stack,
            final(self).linted == old(self).linted,
            final(self).counter == old(self).counter,
            r is Ok <==> strength < 0 && (chunk_elems(tok, line) matches Ok(es) && es.len() == 1 && es[0].k == 'd')
                && qual != Qual::Const && !(old(self).c.nodes@[old(self).c.root(node_id as int)].elem_assigned
                && old(self).c.nodes@[old(self).c.root(node_id as int)].is_const_qual),
            r is Ok ==> final(self).c.nodes@[old(self).c.root(node_id as int)].kind == NodeKind::Plain
                && final(self).c.nodes@[old(self).c.root(node_id as int)].elem_assigned,
    {
        if strength >= 0 {
            let t = int_str(strength as i64);
            let m = cat5("an element cannot take a signal strength; write a bare number instead (`const reg ", name, " = ", t.as_str(), ";`)");
            return fail(line, m);
        }
        let es = match parse_chunk(tok, line) {
            Ok(es) => es,
            Err(x) => return Err(x),
        };
        if es.len() != 1 {
            return fail(line, cat3("a reg must hold exactly one element: \"", tok, "\""));
        }
        let e = es[0];
        proof {
            lemma_root_bound(&self.c, node_id as int);
        }
        let root = self.c.find(node_id);
        if self.c.nodes[root].elem_assigned {
            if self.c.nodes[root].is_const_qual {
                return fail(line, own("cannot reassign element of a const reg"));
            }
            warn(&mut self.warnings, line, own("reg element reassigned (last assignment wins)"));
        }
        if e.k == 'r' || e.k == 'C' || e.k == 'S' {
            let kind = if e.k == 'r' { "repeater" } else { "comparator" };
            let m = cat5("a ", kind, " reg must be initialized at its declaration (write `reg ", name, " = ");
            let m = cat3(m.as_str(), tok, ";`); it cannot be assigned after declaration");
            return fail(line, m);
        }
        if e.k == 't' {
            return fail(line, cat3("element \"", tok, "\" cannot be placed in a reg (a torch belongs inside a wire/chain)"));
        }
        if e.k == 'o' {
            return fail(
                line,
                cat3("element \"", tok, "\" cannot be placed in a reg (an observer belongs inline in a wire/chain, e.g. 'x - o - y;')"),
            );
        }
        if qual == Qual::Const {
            return fail(line, cat3("a const reg must be initialized with a bare signal strength (e.g. `const reg ", name, " = 15;`)"));
        }
        let nd = &self.c.nodes[root];
        let (b, cq, op) = (nd.base, nd.is_const_qual, nd.is_out_port);
        self.c.set_attrs(root, NodeKind::Plain, b, true, cq, op);
        Ok(())
    }

    /// Applies a bare strength initializer (`const reg n = 15;`): only on a const reg, and
    /// within 0-15.
    fn apply_bare_strength(&mut self, node_id: usize, strength: i32, qual: Qual, line: i32) -> (r: RvResult<()>)
        requires
            old(self).c.wf(),
            node_id < old(self).c.nodes@.len(),
            strength >= 0,
        ensures
            final(self).c.wf(),
            final(self).c.cfg == old(self).c.cfg,
            final(self).c.nodes@.len() == old(self).c.nodes@.len(),
            final(self).c.seqs == old(self).c.seqs,
            final(self).stack == old(self).stack,
            final(self).linted == old(self).linted,
            final(self).counter == old(self).counter,
            final(self).warnings == old(self).warnings,
            r is Ok <==> qual == Qual::Const && strength <= 15,
            r is Ok ==> ({
                let n = final(self).c.nodes@[old(self).c.root(node_id as int)];
                n.kind == NodeKind::Const && n.base == strength && n.is_const_qual && n.elem_assigned
            }),
    {
        if qual != Qual::Const {
            return fail(line, own("signal-strength literals are only allowed on const reg"));
        }
        if strength > 15 {
            let t = int_str(strength as i64);
            return fail(line, cat2("const signal strength out of range 0-15: ", t.as_str()));
        }
        proof {
            lemma_root_bound(&self.c, node_id as int);
        }
        let root = self.c.find(node_id);
        let op = self.c.nodes[root].is_out_port;
        self.c.set_attrs(root, NodeKind::Const, strength, true, true, op);
        Ok(())
    }
}

/// Links two ports lane by lane without decay; their widths must match.
pub fn connect_ports(c: &mut Circuit, src: &PortShape, dst: &PortShape, ctx: &str, line: i32) -> (r: RvResult<()>)
    requires
        old(c).wf(),
        shape_ok(*src, old(c).nodes@.len()),
        shape_ok(*dst, old(c).nodes@.len()),
    ensures
        final(c).wf(),
        final(c).cfg == old(c).cfg,
        final(c).nodes@.len() == old(c).nodes@.len(),
        final(c).seqs == old(c).seqs,
        r is Ok <==> crate::interp::shape_width(*src) == crate::interp::shape_width(*dst),
        r is Ok ==> final(c).edges@.len() == old(c).edges@.len() + crate::interp::shape_width(*src),
{
    let sw = src.width();
    let dw = dst.width();
    if sw != dw {
        let a = format_uint(sw as u64, 10);
        let b = format_uint(dw as u64, 10);
        let m = cat5(ctx, ": port width mismatch (", a.as_str(), " vs ", b.as_str());
        return fail(line, cat2(m.as_str(), " lane(s); scalar/bus must match)"));
    }
    let s = src.lanes();
    let d = dst.lanes();
    let mut i: usize = 0;
    while i < s.len()
        invariant
            c.wf(),
            c.cfg == old(c).cfg,
            c.nodes@.len() == old(c).nodes@.len(),
            c.seqs == old(c).seqs,
            s@.len() == d@.len(),
            s@.len() == sw,
            lanes_ok(s@, c.nodes@.len()),
            lanes_ok(d@, c.nodes@.len()),
            i <= s@.len(),
            c.edges@.len() == old(c).edges@.len() + i,
        decreases s@.len() - i,
    {
        c.add_edge(s[i], d[i], 0);
        i += 1;
    }
    Ok(())
}

} // verus!
