//! Circuit graph and the tick simulation engine.
//!
//! Each tick: (1) sequential elements (repeaters, torches, comparators, observers) compute
//! their output from the input sampled `delay` ticks ago; (2) the combinational network
//! (dust, direct links, 0-tick repeaters) is solved to its MAX-merge fixed point;
//! (3) torch burnout is tracked; (4) sequential elements sample their inputs.
//! Nodes aliased together form a union-find forest; only representatives carry values.
use crate::diag::Warning;
use crate::strs::{cat2, cat3, int_str, own};
use std::collections::VecDeque;
use vstd::prelude::*;

verus! {

/// Simulation limits.
#[derive(Debug, Clone, Copy)]
pub struct Config {
    /// Tick budget of `#init` (and `#until`).
    pub init_timeout: i64,
    /// Torch burnout: more toggles than this within the window burns the torch out.
    pub burnout_limit: i32,
    /// Burnout window in ticks.
    pub burnout_window: i32,
    /// Forced-off period of a burnt-out torch, in ticks.
    pub burnout_cooldown: i32,
}

impl Config {
    /// The default limits: 1000-tick init budget, 8 toggles per 30 ticks, 30-tick cooldown.
    pub fn default_config() -> (r: Config)
        ensures
            r.init_timeout == 1000 && r.burnout_limit == 8 && r.burnout_window == 30
                && r.burnout_cooldown == 30,
    {
        Config { init_timeout: 1000, burnout_limit: 8, burnout_window: 30, burnout_cooldown: 30 }
    }
}

impl Default for Config {
    fn default() -> (r: Config)
        ensures
            r.init_timeout == 1000 && r.burnout_limit == 8 && r.burnout_window == 30
                && r.burnout_cooldown == 30,
    {
        Config::default_config()
    }
}

/// Node kind. Merging keeps the kind of higher rank (Const > Input > Block > Plain).
#[derive(Debug, Clone, Copy, PartialEq, Eq, Structural)]
pub enum NodeKind {
    Plain,
    Block,
    Const,
    Input,
}

/// A point of the circuit.
#[derive(Debug, Clone)]
pub struct CNode {
    pub name: String,
    pub kind: NodeKind,
    /// Driven value of an Input / Const node.
    pub base: i32,
    pub value: i32,
    pub prev: i32,
    pub has_incoming: bool,
    /// Whether the node drives something (lint: floating nodes).
    pub has_outgoing: bool,
    pub is_out_port: bool,
    pub elem_assigned: bool,
    pub is_const_qual: bool,
}

impl CNode {
    /// A fresh node with all values 0 and no flags set.
    pub fn new(name: String, kind: NodeKind) -> (r: CNode)
        ensures
            r.name == name && r.kind == kind && r.base == 0 && r.value == 0 && r.prev == 0,
            !r.has_incoming && !r.has_outgoing && !r.is_out_port && !r.elem_assigned
                && !r.is_const_qual,
    {
        CNode {
            name,
            kind,
            base: 0,
            value: 0,
            prev: 0,
            has_incoming: false,
            has_outgoing: false,
            is_out_port: false,
            elem_assigned: false,
            is_const_qual: false,
        }
    }
}

/// A combinational link `s -> d` losing `decay` strength (dust count).
#[derive(Debug, Clone, Copy)]
pub struct CEdge {
    pub s: usize,
    pub d: usize,
    pub decay: i32,
}

/// Edge condition of an observer.
#[derive(Debug, Clone, Copy, PartialEq, Eq, Structural)]
pub enum ObsMode {
    /// any change
    Any,
    /// rising edge: `prev == 0 && cur > 0`
    Rise,
    /// falling edge: `prev > 0 && cur == 0`
    Fall,
    /// two-level edge: `(prev > 0) != (cur > 0)`
    Edge,
}

/// Kind of a sequential element.
#[derive(Debug, Clone, Copy, PartialEq, Eq, Structural)]
pub enum SeqKind {
    Rep,
    Torch,
    /// comparator, compare mode: `out = back >= side ? back : 0`
    CompCmp,
    /// comparator, subtract mode: `out = max(0, back - side)`
    CompSub,
    /// observer: a one-tick strength-15 pulse when two adjacent samples satisfy the mode
    Observer(ObsMode),
}

/// A sequential element with its input history.
#[derive(Debug, Clone)]
pub struct CSeq {
    pub kind: SeqKind,
    pub delay: i32,
    pub in_: usize,
    pub out: usize,
    /// sampled (back) inputs, oldest first
    pub hist: VecDeque<i32>,
    /// side input (comparator side / repeater lock); `None` means side 0
    pub side_in: Option<usize>,
    /// sampled side inputs, oldest first (one entry when `side_in` is set)
    pub side_hist: VecDeque<i32>,
    pub outv: i32,
    pub prev_out: i32,
    /// ticks at which a torch toggled
    pub togg: VecDeque<i64>,
    /// remaining burnout cooldown
    pub cooldown: i32,
    pub label: String,
    pub line: i32,
}

/// A 0-tick repeater: `out = in > 0 ? 15 : 0` within the same tick.
#[derive(Debug, Clone, Copy)]
pub struct ZeroRep {
    pub in_: usize,
    pub out: usize,
}

// ---- element semantics ------------------------------------------------------------------

/// Whether an observer of mode `mode` fires on samples `prev`, `cur`.
pub open spec fn obs_fires(mode: ObsMode, prev: i32, cur: i32) -> bool {
    match mode {
        ObsMode::Any => prev != cur,
        ObsMode::Rise => prev == 0 && cur > 0,
        ObsMode::Fall => prev > 0 && cur == 0,
        ObsMode::Edge => (prev > 0) != (cur > 0),
    }
}

/// Output of a sequential element (other than an observer) from its back and side samples.
pub open spec fn seq_out(kind: SeqKind, back: i32, side: i32) -> i32 {
    match kind {
        SeqKind::Rep => if back > 0 { 15 } else { 0 },
        SeqKind::Torch => if back > 0 { 0 } else { 15 },
        SeqKind::CompCmp => if back >= side { back } else { 0 },
        SeqKind::CompSub => if back - side > 0 { (back - side) as i32 } else { 0 },
        SeqKind::Observer(_) => 0,
    }
}

/// First element of a queue, 0 when empty.
pub open spec fn front0(q: Seq<i32>) -> i32 {
    if q.len() > 0 { q[0] } else { 0 }
}

/// Last element of a queue, 0 when empty.
pub open spec fn back0(q: Seq<i32>) -> i32 {
    if q.len() > 0 { q.last() } else { 0 }
}

/// A lockable repeater whose side input is powered holds its output.
pub open spec fn locked(s: CSeq, side: i32) -> bool {
    s.kind == SeqKind::Rep && s.side_in is Some && side > 0
}

/// The output an element computes at the start of a tick, before burnout forcing.
pub open spec fn raw_output(s: CSeq) -> i32 {
    match s.kind {
        SeqKind::Observer(mode) => if obs_fires(mode, front0(s.hist@), back0(s.hist@)) {
            15
        } else {
            0
        },
        _ => if locked(s, front0(s.side_hist@)) {
            s.prev_out
        } else {
            seq_out(s.kind, front0(s.hist@), front0(s.side_hist@))
        },
    }
}

/// The output of an element for a tick: a torch in burnout cooldown is forced off.
pub open spec fn tick_output(s: CSeq) -> i32 {
    if s.kind == SeqKind::Torch && s.cooldown > 0 {
        0
    } else {
        raw_output(s)
    }
}

/// Whether an observer of `mode` fires on `prev`, `cur` (pulse of strength 15 or 0).
pub fn observer_out(mode: ObsMode, prev: i32, cur: i32) -> (r: i32)
    ensures
        r == if obs_fires(mode, prev, cur) { 15i32 } else { 0i32 },
{
    let fire = match mode {
        ObsMode::Any => prev != cur,
        ObsMode::Rise => prev == 0 && cur > 0,
        ObsMode::Fall => prev > 0 && cur == 0,
        ObsMode::Edge => (prev > 0) != (cur > 0),
    };
    if fire { 15 } else { 0 }
}

/// Output of a repeater / torch / comparator from its back and side samples.
pub fn seq_out_of(kind: SeqKind, back: i32, side: i32) -> (r: i32)
    requires
        0 <= back <= 15,
        0 <= side <= 15,
    ensures
        r == seq_out(kind, back, side),
        0 <= r <= 15,
{
    match kind {
        SeqKind::Rep => if back > 0 { 15 } else { 0 },
        SeqKind::Torch => if back > 0 { 0 } else { 15 },
        SeqKind::CompCmp => if back >= side { back } else { 0 },
        SeqKind::CompSub => if back - side > 0 { back - side } else { 0 },
        SeqKind::Observer(_) => 0,
    }
}

/// Laws of the element outputs. A comparator in compare mode passes its back
/// sample through whenever it is at least the side sample (so equal samples pass
/// the back sample, not 0) and is off when the side sample is stronger; in
/// subtract mode it gives how far the back sample exceeds the side sample, never
/// less than 0 and never more than compare mode gives. With no side signal both
/// modes pass the back sample. A repeater is on exactly when its back sample is
/// powered, and a torch is its complement.
pub proof fn lemma_element_outputs(back: i32, side: i32)
    requires
        0 <= back <= 15,
        0 <= side <= 15,
    ensures
        side <= back ==> seq_out(SeqKind::CompCmp, back, side) == back,
        back < side ==> seq_out(SeqKind::CompCmp, back, side) == 0,
        seq_out(SeqKind::CompCmp, back, back) == back,
        seq_out(SeqKind::CompCmp, back, 0) == back,
        side <= back ==> seq_out(SeqKind::CompSub, back, side) + side == back,
        back <= side ==> seq_out(SeqKind::CompSub, back, side) == 0,
        seq_out(SeqKind::CompSub, back, 0) == back,
        0 <= seq_out(SeqKind::CompSub, back, side) <= seq_out(SeqKind::CompCmp, back, side),
        back > 0 <==> seq_out(SeqKind::Rep, back, side) == 15,
        back == 0 <==> seq_out(SeqKind::Rep, back, side) == 0,
        seq_out(SeqKind::Rep, back, side) + seq_out(SeqKind::Torch, back, side) == 15,
{
}

/// Merge rank of a node kind.
pub open spec fn rank(k: NodeKind) -> int {
    match k {
        NodeKind::Const => 3,
        NodeKind::Input => 2,
        NodeKind::Block => 1,
        NodeKind::Plain => 0,
    }
}

fn rank_of(k: NodeKind) -> (r: u8)
    ensures
        r == rank(k),
{
    match k {
        NodeKind::Const => 3,
        NodeKind::Input => 2,
        NodeKind::Block => 1,
        NodeKind::Plain => 0,
    }
}

/// Value of a node after merging a contribution `v` into it: a Const node keeps its value,
/// a Block latches to 15 when powered, Plain / Input take the maximum.
pub open spec fn joined(kind: NodeKind, cur: i32, v: i32) -> i32 {
    match kind {
        NodeKind::Const => cur,
        NodeKind::Block => if v > 0 && cur < 15 { 15 } else { cur },
        _ => if v > cur { v } else { cur },
    }
}

/// A contribution `v` is already absorbed by a node of `kind` holding `cur`.
pub open spec fn absorbed(kind: NodeKind, cur: i32, v: i32) -> bool {
    joined(kind, cur, v) == cur
}

// ---- union-find -----------------------------------------------------------------------

/// Representative of `x` in the parent forest `par` (levels strictly increase towards roots).
pub open spec fn root_of(par: Seq<usize>, lvl: Seq<nat>, x: int) -> int
    decreases (if 0 <= x < lvl.len() { uf_cap(lvl) - lvl[x] } else { 0 }),
{
    if !(0 <= x < par.len() && 0 <= x < lvl.len()) {
        x
    } else if par[x] as int == x {
        x
    } else {
        let p = par[x] as int;
        if 0 <= p < lvl.len() && lvl[x] < lvl[p] && lvl[p] <= uf_cap(lvl) {
            root_of(par, lvl, p)
        } else {
            x
        }
    }
}

/// An upper bound on all levels.
pub open spec fn uf_cap(lvl: Seq<nat>) -> int
    decreases lvl.len(),
{
    if lvl.len() == 0 {
        0
    } else {
        let r = uf_cap(lvl.drop_last());
        if lvl.last() > r { lvl.last() as int } else { r }
    }
}

proof fn lemma_cap(lvl: Seq<nat>, i: int)
    requires
        0 <= i < lvl.len(),
    ensures
        lvl[i] <= uf_cap(lvl),
    decreases lvl.len(),
{
    if i < lvl.len() - 1 {
        lemma_cap(lvl.drop_last(), i);
    }
}

/// The parent forest is well formed: parents are in range and levels increase to roots.
pub open spec fn uf_wf(par: Seq<usize>, lvl: Seq<nat>) -> bool {
    &&& par.len() == lvl.len()
    &&& forall|x: int| 0 <= x < par.len() ==> (#[trigger] par[x]) < par.len()
    &&& forall|x: int| 0 <= x < par.len() && par[x] as int != x ==> lvl[x] < lvl[par[x] as int]
}

proof fn lemma_root_step(par: Seq<usize>, lvl: Seq<nat>, x: int)
    requires
        uf_wf(par, lvl),
        0 <= x < par.len(),
    ensures
        par[x] as int != x ==> root_of(par, lvl, x) == root_of(par, lvl, par[x] as int),
        par[x] as int == x ==> root_of(par, lvl, x) == x,
{
    if par[x] as int != x {
        lemma_cap(lvl, par[x] as int);
    }
}

proof fn lemma_root_is_root(par: Seq<usize>, lvl: Seq<nat>, x: int)
    requires
        uf_wf(par, lvl),
        0 <= x < par.len(),
    ensures
        0 <= root_of(par, lvl, x) < par.len(),
        par[root_of(par, lvl, x)] as int == root_of(par, lvl, x),
    decreases uf_cap(lvl) - lvl[x],
{
    lemma_cap(lvl, x);
    lemma_root_step(par, lvl, x);
    if par[x] as int != x {
        lemma_cap(lvl, par[x] as int);
        lemma_root_is_root(par, lvl, par[x] as int);
    }
}

/// Path halving (`par[x] := par[par[x]]`) preserves every representative.
proof fn lemma_halve(par: Seq<usize>, lvl: Seq<nat>, x: int, y: int)
    requires
        uf_wf(par, lvl),
        0 <= x < par.len(),
        0 <= y < par.len(),
    ensures
        uf_wf(par.update(x, par[par[x] as int]), lvl),
        root_of(par.update(x, par[par[x] as int]), lvl, y) == root_of(par, lvl, y),
    decreases uf_cap(lvl) - lvl[y],
{
    let p2 = par.update(x, par[par[x] as int]);
    assert(uf_wf(p2, lvl)) by {
        assert forall|z: int| 0 <= z < p2.len() && p2[z] as int != z implies lvl[z] < lvl[p2[z] as int] by {
            if z == x {
                let p = par[x] as int;
                if p != x {
                    if par[p] as int != p {
                    }
                }
            }
        }
    }
    lemma_root_step(par, lvl, y);
    lemma_root_step(p2, lvl, y);
    lemma_cap(lvl, y);
    if y == x {
        let p = par[x] as int;
        if p != x {
            lemma_root_step(par, lvl, p);
            let g = par[p] as int;
            lemma_cap(lvl, p);
            if g != p {
                lemma_cap(lvl, g);
                lemma_halve(par, lvl, x, g);
            }
        }
    } else if par[y] as int != y {
        lemma_cap(lvl, par[y] as int);
        lemma_halve(par, lvl, x, par[y] as int);
    }
}

/// After linking root `b` under root `a`, a node's representative is `a` if it was `b`.
proof fn lemma_link(par: Seq<usize>, lvl: Seq<nat>, lvl2: Seq<nat>, a: int, b: int, y: int)
    requires
        uf_wf(par, lvl),
        0 <= a < par.len(),
        0 <= b < par.len(),
        a != b,
        par[a] as int == a,
        par[b] as int == b,
        lvl2.len() == lvl.len(),
        forall|z: int| 0 <= z < lvl.len() && z != a ==> lvl2[z] == lvl[z],
        lvl2[a] >= lvl[a],
        lvl2[a] > lvl[b],
        0 <= y < par.len(),
    ensures
        uf_wf(par.update(b, a as usize), lvl2),
        root_of(par.update(b, a as usize), lvl2, y) == if root_of(par, lvl, y) == b {
            a
        } else {
            root_of(par, lvl, y)
        },
    decreases uf_cap(lvl) - lvl[y],
{
    let p2 = par.update(b, a as usize);
    assert(uf_wf(p2, lvl2)) by {
        assert forall|z: int| 0 <= z < p2.len() && p2[z] as int != z implies lvl2[z] < lvl2[p2[z] as int] by {
            if z != b {
                let p = par[z] as int;
                if p == a {
                    assert(lvl[z] < lvl[a]);
                } else {
                    assert(z != a);
                }
            }
        }
    }
    lemma_root_step(par, lvl, y);
    lemma_root_step(p2, lvl2, y);
    lemma_cap(lvl, y);
    if y == b {
        lemma_root_step(p2, lvl2, a);
    } else if par[y] as int != y {
        lemma_cap(lvl, par[y] as int);
        lemma_link(par, lvl, lvl2, a, b, par[y] as int);
    }
}

// ---- the circuit ------------------------------------------------------------------------

/// A circuit: nodes in a union-find forest, combinational edges, sequential elements and
/// 0-tick repeaters, plus the tick counter and warnings raised while stepping.
pub struct Circuit {
    pub cfg: Config,
    pub nodes: Vec<CNode>,
    /// union-find parents (aliasing)
    pub par: Vec<usize>,
    pub edges: Vec<CEdge>,
    pub seqs: Vec<CSeq>,
    pub zero_reps: Vec<ZeroRep>,
    pub tick: i64,
    /// warnings (torch burnout) not yet collected by the caller
    pub warnings: Vec<Warning>,
    /// levels of the parent forest (strictly increasing towards the roots)
    pub lvl: Ghost<Seq<nat>>,
}

/// A strength in range.
pub open spec fn strength(v: i32) -> bool {
    0 <= v <= 15
}

/// All samples of a queue are strengths.
pub open spec fn all_strengths(q: Seq<i32>) -> bool {
    forall|k: int| 0 <= k < q.len() ==> strength(#[trigger] q[k])
}

impl Circuit {
    /// Representative of node `x`.
    pub open spec fn root(&self, x: int) -> int {
        root_of(self.par@, self.lvl@, x)
    }

    /// All representatives.
    pub open spec fn root_map(&self) -> Seq<int> {
        Seq::new(self.nodes@.len(), |y: int| self.root(y))
    }

    /// Value of the representative of `x`.
    pub open spec fn val(&self, x: int) -> i32 {
        self.nodes@[self.root(x)].value
    }

    pub open spec fn seq_wf(&self, s: CSeq) -> bool {
        let n = self.nodes@.len();
        &&& s.in_ < n
        &&& s.out < n
        &&& s.side_in matches Some(k) ==> k < n
        &&& s.hist@.len() >= 1
        &&& (s.kind matches SeqKind::Observer(_) ==> s.hist@.len() == 2)
        &&& (s.side_in is Some ==> s.side_hist@.len() == 1)
        &&& (s.side_in is None ==> s.side_hist@.len() == 0)
        &&& all_strengths(s.hist@)
        &&& all_strengths(s.side_hist@)
        &&& strength(s.outv)
        &&& strength(s.prev_out)
    }

    /// Structural well-formedness of the circuit.
    pub open spec fn wf(&self) -> bool {
        let n = self.nodes@.len();
        &&& self.par@.len() == n
        &&& uf_wf(self.par@, self.lvl@)
        &&& forall|i: int| 0 <= i < self.edges@.len() ==> (#[trigger] self.edges@[i]).s < n
            && self.edges@[i].d < n && self.edges@[i].decay >= 0
        &&& forall|i: int| 0 <= i < self.zero_reps@.len() ==> (#[trigger] self.zero_reps@[i]).in_
            < n && self.zero_reps@[i].out < n
        &&& forall|i: int| 0 <= i < self.seqs@.len() ==> self.seq_wf(#[trigger] self.seqs@[i])
        &&& forall|i: int| 0 <= i < n ==> strength((#[trigger] self.nodes@[i]).value)
            && strength(self.nodes@[i].base) && strength(self.nodes@[i].prev)
    }

    /// An empty circuit.
    pub fn new(cfg: Config) -> (r: Circuit)
        ensures
            r.wf(),
            r.cfg == cfg,
            r.nodes@.len() == 0 && r.edges@.len() == 0 && r.seqs@.len() == 0
                && r.zero_reps@.len() == 0 && r.tick == 0 && r.warnings@.len() == 0,
    {
        Circuit {
            cfg,
            nodes: Vec::new(),
            par: Vec::new(),
            edges: Vec::new(),
            seqs: Vec::new(),
            zero_reps: Vec::new(),
            tick: 0,
            warnings: Vec::new(),
            lvl: Ghost(Seq::empty()),
        }
    }

    /// Adds a fresh node (its own representative) and returns its index.
    pub fn new_node(&mut self, nm: String, kind: NodeKind) -> (r: usize)
        requires
            old(self).wf(),
        ensures
            final(self).wf(),
            r == old(self).nodes@.len(),
            final(self).nodes@ == old(self).nodes@.push(CNode::new_spec(nm, kind)),
            final(self).edges == old(self).edges,
            final(self).seqs == old(self).seqs,
            final(self).zero_reps == old(self).zero_reps,
            final(self).tick == old(self).tick,
            final(self).cfg == old(self).cfg,
            final(self).warnings == old(self).warnings,
            final(self).root(r as int) == r,
            forall|x: int| 0 <= x < old(self).nodes@.len() ==> final(self).root(x) == old(self).root(x),
    {
        let ghost old_par = self.par@;
        let ghost old_lvl = self.lvl@;
        self.nodes.push(CNode::new(nm, kind));
        let idx = self.nodes.len() - 1;
        self.par.push(idx);
        self.lvl = Ghost(self.lvl@.push(0));
        proof {
            let p = self.par@;
            let l = self.lvl@;
            assert(uf_wf(p, l)) by {
                assert forall|x: int| 0 <= x < p.len() && p[x] as int != x implies l[x] < l[p[x] as int] by {
                    assert(x < old_par.len());
                }
            }
            lemma_root_step(p, l, idx as int);
            assert forall|x: int| 0 <= x < old_par.len() implies root_of(p, l, x) == root_of(old_par, old_lvl, x) by {
                lemma_extend_roots(old_par, old_lvl, x);
            }
        }
        idx
    }
}

impl CNode {
    pub open spec fn new_spec(name: String, kind: NodeKind) -> CNode {
        CNode {
            name,
            kind,
            base: 0,
            value: 0,
            prev: 0,
            has_incoming: false,
            has_outgoing: false,
            is_out_port: false,
            elem_assigned: false,
            is_const_qual: false,
        }
    }
}

/// Two distinct const points with different driven values cannot be aliased.
pub open spec fn merge_conflict(na: CNode, nb: CNode, distinct: bool) -> bool {
    distinct && na.kind == NodeKind::Const && nb.kind == NodeKind::Const && na.base != nb.base
}

/// The representative after aliasing `nb` into `na`.
pub open spec fn merged(na: CNode, nb: CNode) -> CNode {
    CNode {
        kind: if rank(nb.kind) > rank(na.kind) { nb.kind } else { na.kind },
        base: if rank(nb.kind) > rank(na.kind) { nb.base } else { na.base },
        has_incoming: na.has_incoming || nb.has_incoming,
        has_outgoing: na.has_outgoing || nb.has_outgoing,
        is_out_port: na.is_out_port || nb.is_out_port,
        elem_assigned: na.elem_assigned || nb.elem_assigned,
        is_const_qual: na.is_const_qual || nb.is_const_qual,
        ..na
    }
}

proof fn lemma_extend_roots(par: Seq<usize>, lvl: Seq<nat>, x: int)
    requires
        uf_wf(par, lvl),
        par.len() < usize::MAX,
        0 <= x < par.len(),
    ensures
        root_of(par.push(par.len() as usize), lvl.push(0), x) == root_of(par, lvl, x),
    decreases uf_cap(lvl) - lvl[x],
{
    let p2 = par.push(par.len() as usize);
    let l2 = lvl.push(0);
    assert(uf_wf(p2, l2)) by {
        assert forall|z: int| 0 <= z < p2.len() && p2[z] as int != z implies l2[z] < l2[p2[z] as int] by {
            assert(z < par.len());
        }
    }
    lemma_root_step(par, lvl, x);
    lemma_root_step(p2, l2, x);
    lemma_cap(lvl, x);
    if par[x] as int != x {
        lemma_cap(lvl, par[x] as int);
        lemma_extend_roots(par, lvl, par[x] as int);
    }
}


fn find_in(par: &mut Vec<usize>, lvl: Ghost<Seq<nat>>, x: usize) -> (r: usize)
    requires
        uf_wf(old(par)@, lvl@),
        x < old(par)@.len(),
    ensures
        uf_wf(final(par)@, lvl@),
        final(par)@.len() == old(par)@.len(),
        r == root_of(old(par)@, lvl@, x as int),
        forall|y: int| 0 <= y < old(par)@.len() ==> root_of(final(par)@, lvl@, y) == root_of(old(par)@, lvl@, y),
{
    let ghost x0 = x as int;
    let mut x = x;
    proof {
        lemma_cap(lvl@, x as int);
    }
    while par[x] != x
        invariant
            uf_wf(par@, lvl@),
            par@.len() == old(par)@.len(),
            x < par@.len(),
            root_of(par@, lvl@, x as int) == root_of(old(par)@, lvl@, x0),
            forall|y: int| 0 <= y < old(par)@.len() ==> root_of(par@, lvl@, y) == root_of(old(par)@, lvl@, y),
        decreases uf_cap(lvl@) - lvl@[x as int],
    {
        let p = par[x];
        let g = par[p];
        let ghost pv = par@;
        proof {
            assert forall|y: int| 0 <= y < pv.len() implies root_of(pv.update(x as int, g), lvl@, y) == root_of(pv, lvl@, y) by {
                lemma_halve(pv, lvl@, x as int, y);
            }
            lemma_halve(pv, lvl@, x as int, x as int);
            lemma_root_step(pv, lvl@, x as int);
            lemma_root_step(pv, lvl@, p as int);
            lemma_cap(lvl@, p as int);
            lemma_cap(lvl@, g as int);
        }
        par.set(x, g);
        x = g;
    }
    proof {
        lemma_root_step(par@, lvl@, x as int);
    }
    x
}

impl Circuit {
    /// Representative of node `x` (with path halving, which keeps every representative).
    pub fn find(&mut self, x: usize) -> (r: usize)
        requires
            old(self).wf(),
            x < old(self).nodes@.len(),
        ensures
            final(self).wf(),
            r == old(self).root(x as int),
            final(self).par@.len() == old(self).par@.len(),
            forall|y: int| 0 <= y < old(self).nodes@.len() ==> final(self).root(y) == old(self).root(y),
            final(self).nodes == old(self).nodes,
            final(self).edges == old(self).edges,
            final(self).seqs == old(self).seqs,
            final(self).zero_reps == old(self).zero_reps,
            final(self).tick == old(self).tick,
            final(self).cfg == old(self).cfg,
            final(self).warnings == old(self).warnings,
            final(self).lvl == old(self).lvl,
    {
        let r = find_in(&mut self.par, self.lvl, x);
        proof {
            lemma_root_is_root(self.par@, self.lvl@, x as int);
        }
        r
    }

    /// Aliases nodes `a` and `b` into one point. The merged representative keeps the kind
    /// (and driven value) of higher rank and the OR of the flags. Two const nodes with
    /// different driven values cannot be aliased.
    #[verifier::spinoff_prover]
    #[verifier::rlimit(40)]
    pub fn merge(&mut self, a: usize, b: usize, line: i32) -> (r: Result<(), crate::diag::RvError>)
        requires
            old(self).wf(),
            a < old(self).nodes@.len(),
            b < old(self).nodes@.len(),
        ensures
            final(self).wf(),
            final(self).cfg == old(self).cfg,
            final(self).nodes@.len() == old(self).nodes@.len(),
            final(self).edges == old(self).edges,
            final(self).seqs == old(self).seqs,
            final(self).zero_reps == old(self).zero_reps,
            final(self).tick == old(self).tick,
            r is Err <==> merge_conflict(old(self).nodes@[old(self).root(a as int)],
                old(self).nodes@[old(self).root(b as int)], old(self).root(a as int) != old(self).root(b as int)),
            r is Err ==> final(self).nodes == old(self).nodes,
            r is Err ==> forall|y: int| 0 <= y < old(self).nodes@.len() ==> #[trigger] final(self).root(y) == old(self).root(y),
            r matches Err(e) ==> e.line == line && e.col == 0 && e.len == 0 && e.msg@ == "conflicting const regs aliased: "@
                + old(self).nodes@[old(self).root(a as int)].name@ + " / "@ + old(self).nodes@[old(self).root(b as int)].name@,
            r is Ok ==> forall|y: int| 0 <= y < old(self).nodes@.len() ==> #[trigger] final(self).root(y)
                == if old(self).root(y) == old(self).root(b as int) {
                    old(self).root(a as int)
                } else {
                    old(self).root(y)
                },
            (r is Ok && old(self).root(a as int) != old(self).root(b as int)) ==> final(self).nodes@
                == old(self).nodes@.update(old(self).root(a as int), merged(
                    old(self).nodes@[old(self).root(a as int)],
                    old(self).nodes@[old(self).root(b as int)],
                )),
            old(self).root(a as int) == old(self).root(b as int) ==> final(self).nodes == old(self).nodes,
    {
        proof {
            lemma_root_is_root(self.par@, self.lvl@, a as int);
            lemma_root_is_root(self.par@, self.lvl@, b as int);
        }
        let ra = self.find(a);
        let rb = self.find(b);
        if ra == rb {
            return Ok(());
        }
        if self.nodes[ra].kind == NodeKind::Const && self.nodes[rb].kind == NodeKind::Const
            && self.nodes[ra].base != self.nodes[rb].base {
            let m = cat3("conflicting const regs aliased: ", self.nodes[ra].name.as_str(), " / ");
            let m2 = cat2(m.as_str(), self.nodes[rb].name.as_str());
            return crate::diag::fail(line, m2);
        }
        let ghost old_nodes = self.nodes@;
        let b_kind = self.nodes[rb].kind;
        let b_base = self.nodes[rb].base;
        let b_inc = self.nodes[rb].has_incoming;
        let b_outg = self.nodes[rb].has_outgoing;
        let b_out = self.nodes[rb].is_out_port;
        let b_elem = self.nodes[rb].elem_assigned;
        let b_cq = self.nodes[rb].is_const_qual;
        if rank_of(b_kind) > rank_of(self.nodes[ra].kind) {
            self.nodes[ra].kind = b_kind;
            self.nodes[ra].base = b_base;
        }
        self.nodes[ra].has_incoming = self.nodes[ra].has_incoming || b_inc;
        self.nodes[ra].has_outgoing = self.nodes[ra].has_outgoing || b_outg;
        self.nodes[ra].is_out_port = self.nodes[ra].is_out_port || b_out;
        self.nodes[ra].elem_assigned = self.nodes[ra].elem_assigned || b_elem;
        self.nodes[ra].is_const_qual = self.nodes[ra].is_const_qual || b_cq;
        assert(self.nodes@ =~= old_nodes.update(ra as int, merged(old_nodes[ra as int], old_nodes[rb as int])));
        let ghost old_par = self.par@;
        let ghost old_lvl = self.lvl@;
        proof {
            lemma_root_is_root(old_par, old_lvl, a as int);
            lemma_root_is_root(old_par, old_lvl, b as int);
        }
        let ghost nl = if old_lvl[ra as int] > old_lvl[rb as int] {
            old_lvl[ra as int]
        } else {
            old_lvl[rb as int] + 1
        };
        self.lvl = Ghost(old_lvl.update(ra as int, nl));
        self.par.set(rb, ra);
        proof {
            assert forall|y: int| 0 <= y < old_par.len() implies root_of(self.par@, self.lvl@, y) == if root_of(old_par, old_lvl, y) == rb {
                ra as int
            } else {
                root_of(old_par, old_lvl, y)
            } by {
                lemma_link(old_par, old_lvl, self.lvl@, ra as int, rb as int, y);
            }
            lemma_link(old_par, old_lvl, self.lvl@, ra as int, rb as int, 0);
            assert forall|i: int| 0 <= i < self.nodes@.len() implies strength((#[trigger] self.nodes@[i]).value)
                && strength(self.nodes@[i].base) && strength(self.nodes@[i].prev) by {
                if i == ra {
                    assert(strength(old_nodes[rb as int].base));
                } else {
                    assert(self.nodes@[i] == old_nodes[i]);
                }
            }
        }
        Ok(())
    }

    /// Adds a combinational link `s -> d` losing `decay` strength; marks the endpoints'
    /// representatives as driving / driven.
    pub fn add_edge(&mut self, s: usize, d: usize, decay: i32)
        requires
            old(self).wf(),
            s < old(self).nodes@.len(),
            d < old(self).nodes@.len(),
            decay >= 0,
        ensures
            final(self).wf(),
            final(self).cfg == old(self).cfg,
            same_names(old(self).nodes@, final(self).nodes@),
            final(self).edges@ == old(self).edges@.push(CEdge { s, d, decay }),
            final(self).nodes@.len() == old(self).nodes@.len(),
            final(self).seqs == old(self).seqs,
            final(self).zero_reps == old(self).zero_reps,
            final(self).tick == old(self).tick,
            forall|y: int| 0 <= y < old(self).nodes@.len() ==> final(self).root(y) == old(self).root(y),
            final(self).nodes@[old(self).root(d as int)].has_incoming,
            final(self).nodes@[old(self).root(s as int)].has_outgoing,
            forall|z: int| 0 <= z < old(self).nodes@.len() ==> {
                let m = #[trigger] final(self).nodes@[z];
                let o = old(self).nodes@[z];
                &&& m.name == o.name && m.kind == o.kind && m.base == o.base && m.value == o.value
                &&& m.is_out_port == o.is_out_port && m.elem_assigned == o.elem_assigned
                &&& m.has_incoming == (o.has_incoming || z == old(self).root(d as int))
                &&& m.has_outgoing == (o.has_outgoing || z == old(self).root(s as int))
            },
    {
        self.edges.push(CEdge { s, d, decay });
        proof {
            lemma_root_is_root(self.par@, self.lvl@, d as int);
            lemma_root_is_root(self.par@, self.lvl@, s as int);
        }
        let ghost c0 = self.root_map();
        let r = self.find(d);
        let ghost c1 = self.root_map();
        let rs = self.find(s);
        let ghost n0 = self.nodes@;
        assert forall|y: int| 0 <= y < n0.len() implies self.root(y) == old(self).root(y) by {
            assert(c0[y] == old(self).root(y));
            assert(c1[y] == c0[y]);
        }
        self.nodes[r].has_incoming = true;
        self.nodes[rs].has_outgoing = true;
        proof {
            assert forall|i: int| 0 <= i < self.nodes@.len() implies strength((#[trigger] self.nodes@[i]).value)
                && strength(self.nodes@[i].base) && strength(self.nodes@[i].prev) by {
                assert(self.nodes@[i].value == n0[i].value);
                assert(self.nodes@[i].base == n0[i].base);
                assert(self.nodes@[i].prev == n0[i].prev);
            }
        }
    }
}

/// Two node lists of one length whose nodes have the same names and kinds.
pub open spec fn same_names(a: Seq<CNode>, b: Seq<CNode>) -> bool {
    &&& a.len() == b.len()
    &&& forall|z: int| 0 <= z < a.len() ==> (#[trigger] b[z]).name == a[z].name && b[z].kind == a[z].kind
}

proof fn lemma_same_names_trans(a: Seq<CNode>, b: Seq<CNode>, c: Seq<CNode>)
    requires
        same_names(a, b),
        same_names(b, c),
    ensures
        same_names(a, c),
{
    assert forall|z: int| 0 <= z < a.len() implies (#[trigger] c[z]).name == a[z].name && c[z].kind == a[z].kind by {
        assert(b[z].name == a[z].name);
    }
}

/// `n` with its driven flag (`incoming`) or driving flag set.
pub open spec fn with_flag(n: CNode, incoming: bool) -> CNode {
    if incoming {
        CNode { has_incoming: true, ..n }
    } else {
        CNode { has_outgoing: true, ..n }
    }
}

impl Circuit {
    /// Sets the declared attributes of node `x` (its kind, driven value, whether an element
    /// or a const strength was assigned to it, and whether it is an output port).
    pub fn set_attrs(&mut self, x: usize, kind: NodeKind, base: i32, elem_assigned: bool, is_const_qual: bool, is_out_port: bool)
        requires
            old(self).wf(),
            x < old(self).nodes@.len(),
            strength(base),
        ensures
            final(self).wf(),
            final(self).nodes@ == old(self).nodes@.update(x as int, CNode {
                kind,
                base,
                elem_assigned,
                is_const_qual,
                is_out_port,
                ..old(self).nodes@[x as int]
            }),
            final(self).par == old(self).par,
            final(self).lvl == old(self).lvl,
            final(self).edges == old(self).edges,
            final(self).seqs == old(self).seqs,
            final(self).zero_reps == old(self).zero_reps,
            final(self).tick == old(self).tick,
            final(self).cfg == old(self).cfg,
            final(self).warnings == old(self).warnings,
    {
        let ghost n0 = self.nodes@;
        self.nodes[x].kind = kind;
        self.nodes[x].base = base;
        self.nodes[x].elem_assigned = elem_assigned;
        self.nodes[x].is_const_qual = is_const_qual;
        self.nodes[x].is_out_port = is_out_port;
        proof {
            assert(self.nodes@ =~= n0.update(x as int, CNode {
                kind,
                base,
                elem_assigned,
                is_const_qual,
                is_out_port,
                ..n0[x as int]
            }));
            assert forall|i: int| 0 <= i < self.nodes@.len() implies strength((#[trigger] self.nodes@[i]).value)
                && strength(self.nodes@[i].base) && strength(self.nodes@[i].prev) by {
                if i != x {
                    assert(self.nodes@[i] == n0[i]);
                }
            }
        }
    }

    /// Marks the representative of `x` as driven (`incoming`) or as driving.
    fn mark(&mut self, x: usize, incoming: bool)
        requires
            old(self).wf(),
            x < old(self).nodes@.len(),
        ensures
            final(self).wf(),
            same_names(old(self).nodes@, final(self).nodes@),
            final(self).nodes@ == old(self).nodes@.update(old(self).root(x as int), with_flag(
                old(self).nodes@[old(self).root(x as int)],
                incoming,
            )),
            forall|y: int| 0 <= y < old(self).nodes@.len() ==> final(self).root(y) == old(self).root(y),
            final(self).root_map() == old(self).root_map(),
            final(self).nodes@.len() == old(self).nodes@.len(),
            final(self).edges == old(self).edges,
            final(self).seqs == old(self).seqs,
            final(self).zero_reps == old(self).zero_reps,
            final(self).tick == old(self).tick,
            final(self).cfg == old(self).cfg,
            final(self).warnings == old(self).warnings,
    {
        proof {
            lemma_root_is_root(self.par@, self.lvl@, x as int);
        }
        let r = self.find(x);
        assert(self.root_map() =~= old(self).root_map());
        let ghost n0 = self.nodes@;
        if incoming {
            self.nodes[r].has_incoming = true;
        } else {
            self.nodes[r].has_outgoing = true;
        }
        proof {
            assert(self.nodes@ =~= n0.update(r as int, with_flag(n0[r as int], incoming)));
            assert forall|z: int| 0 <= z < n0.len() implies (#[trigger] self.nodes@[z]).name == n0[z].name
                && self.nodes@[z].kind == n0[z].kind by {
                if z == r as int {
                } else {
                    assert(self.nodes@[z] == n0[z]);
                }
            }
            assert forall|i: int| 0 <= i < self.nodes@.len() implies strength((#[trigger] self.nodes@[i]).value)
                && strength(self.nodes@[i].base) && strength(self.nodes@[i].prev) by {
                assert(self.nodes@[i].value == n0[i].value);
                assert(self.nodes@[i].base == n0[i].base);
                assert(self.nodes@[i].prev == n0[i].prev);
            }
        }
    }

    /// Registers a sequential element (repeater / torch / observer) of `delay` ticks whose
    /// history starts all zero.
    pub fn add_seq(&mut self, kind: SeqKind, delay: i32, in_: usize, out: usize, label: String, line: i32)
        requires
            old(self).wf(),
            in_ < old(self).nodes@.len(),
            out < old(self).nodes@.len(),
            1 <= delay,
            kind matches SeqKind::Observer(_) ==> delay == 2,
        ensures
            final(self).wf(),
            final(self).cfg == old(self).cfg,
            same_names(old(self).nodes@, final(self).nodes@),
            final(self).seqs@.len() == old(self).seqs@.len() + 1,
            final(self).seqs@.drop_last() == old(self).seqs@,
            ({
                let q = final(self).seqs@.last();
                &&& q.kind == kind && q.delay == delay && q.in_ == in_ && q.out == out
                &&& q.hist@ == Seq::new(delay as nat, |i: int| 0i32)
                &&& q.side_in is None && q.side_hist@.len() == 0
                &&& q.outv == 0 && q.prev_out == 0 && q.togg@.len() == 0 && q.cooldown == 0
                &&& q.label == label && q.line == line
            }),
            final(self).nodes@.len() == old(self).nodes@.len(),
            forall|y: int| 0 <= y < old(self).nodes@.len() ==> final(self).root(y) == old(self).root(y),
            final(self).nodes@[old(self).root(out as int)].has_incoming,
            final(self).nodes@[old(self).root(in_ as int)].has_outgoing,
            final(self).edges == old(self).edges,
            final(self).zero_reps == old(self).zero_reps,
            final(self).tick == old(self).tick,
    {
        let mut hist: VecDeque<i32> = VecDeque::new();
        let mut k: i32 = 0;
        while k < delay
            invariant
                0 <= k <= delay,
                hist@ == Seq::new(k as nat, |i: int| 0i32),
            decreases delay - k,
        {
            hist.push_back(0);
            k += 1;
            assert(hist@ =~= Seq::new(k as nat, |i: int| 0i32));
        }
        let ghost h = hist@;
        self.seqs.push(CSeq {
            kind,
            delay,
            in_,
            out,
            hist,
            side_in: None,
            side_hist: VecDeque::new(),
            outv: 0,
            prev_out: 0,
            togg: VecDeque::new(),
            cooldown: 0,
            label,
            line,
        });
        proof {
            assert(self.seq_wf(self.seqs@.last()));
            assert(self.wf());
            lemma_root_is_root(self.par@, self.lvl@, out as int);
            lemma_root_is_root(self.par@, self.lvl@, in_ as int);
        }
        let ghost n0 = self.nodes@;
        self.mark(out, true);
        let ghost n1 = self.nodes@;
        self.mark(in_, false);
        proof {
            lemma_same_names_trans(n0, n1, self.nodes@);
        }
    }

    /// Registers a 0-tick repeater `in_ -> out`.
    pub fn add_zero_rep(&mut self, in_: usize, out: usize)
        requires
            old(self).wf(),
            in_ < old(self).nodes@.len(),
            out < old(self).nodes@.len(),
        ensures
            final(self).wf(),
            final(self).cfg == old(self).cfg,
            same_names(old(self).nodes@, final(self).nodes@),
            final(self).zero_reps@ == old(self).zero_reps@.push(ZeroRep { in_, out }),
            final(self).nodes@.len() == old(self).nodes@.len(),
            forall|y: int| 0 <= y < old(self).nodes@.len() ==> final(self).root(y) == old(self).root(y),
            final(self).nodes@[old(self).root(out as int)].has_incoming,
            final(self).nodes@[old(self).root(in_ as int)].has_outgoing,
            final(self).edges == old(self).edges,
            final(self).seqs == old(self).seqs,
            final(self).tick == old(self).tick,
    {
        self.zero_reps.push(ZeroRep { in_, out });
        proof {
            lemma_root_is_root(self.par@, self.lvl@, out as int);
            lemma_root_is_root(self.par@, self.lvl@, in_ as int);
        }
        let ghost n0 = self.nodes@;
        self.mark(out, true);
        let ghost n1 = self.nodes@;
        self.mark(in_, false);
        proof {
            lemma_same_names_trans(n0, n1, self.nodes@);
        }
    }

    /// Registers a comparator (one tick of delay); without a side input it passes the
    /// back input through.
    pub fn add_comp(&mut self, kind: SeqKind, in_: usize, side_in: Option<usize>, out: usize, label: String, line: i32)
        requires
            old(self).wf(),
            in_ < old(self).nodes@.len(),
            out < old(self).nodes@.len(),
            side_in matches Some(k) ==> k < old(self).nodes@.len(),
            kind == SeqKind::CompCmp || kind == SeqKind::CompSub,
        ensures
            final(self).wf(),
            final(self).cfg == old(self).cfg,
            same_names(old(self).nodes@, final(self).nodes@),
            final(self).seqs@.len() == old(self).seqs@.len() + 1,
            final(self).seqs@.drop_last() == old(self).seqs@,
            ({
                let q = final(self).seqs@.last();
                &&& q.kind == kind && q.delay == 1 && q.in_ == in_ && q.out == out
                &&& q.hist@ == seq![0i32]
                &&& q.side_in == side_in
                &&& q.side_hist@ == (if side_in is Some { seq![0i32] } else { Seq::<i32>::empty() })
                &&& q.outv == 0 && q.prev_out == 0 && q.togg@.len() == 0 && q.cooldown == 0
                &&& q.label == label && q.line == line
            }),
            final(self).nodes@.len() == old(self).nodes@.len(),
            forall|y: int| 0 <= y < old(self).nodes@.len() ==> final(self).root(y) == old(self).root(y),
            final(self).edges == old(self).edges,
            final(self).zero_reps == old(self).zero_reps,
            final(self).tick == old(self).tick,
    {
        let mut hist: VecDeque<i32> = VecDeque::new();
        hist.push_back(0);
        let mut side_hist: VecDeque<i32> = VecDeque::new();
        if side_in.is_some() {
            side_hist.push_back(0);
        }
        assert(hist@ =~= seq![0i32]);
        assert(side_hist@ =~= (if side_in is Some { seq![0i32] } else { Seq::<i32>::empty() }));
        self.seqs.push(CSeq {
            kind,
            delay: 1,
            in_,
            out,
            hist,
            side_in,
            side_hist,
            outv: 0,
            prev_out: 0,
            togg: VecDeque::new(),
            cooldown: 0,
            label,
            line,
        });
        proof {
            assert(self.seq_wf(self.seqs@.last()));
            assert(self.wf());
        }
        let ghost rm = self.root_map();
        let ghost n0 = self.nodes@;
        self.mark(out, true);
        let ghost n1 = self.nodes@;
        self.mark(in_, false);
        let ghost n2 = self.nodes@;
        proof {
            lemma_same_names_trans(n0, n1, n2);
        }
        if let Some(sn) = side_in {
            self.mark(sn, false);
            proof {
                lemma_same_names_trans(n0, n2, self.nodes@);
            }
        }
        assert forall|y: int| 0 <= y < old(self).nodes@.len() implies self.root(y) == old(self).root(y) by {
            assert(self.root_map()[y] == rm[y]);
        }
    }

    /// Registers a lockable repeater of `delay` ticks: while its side input is powered the
    /// output holds its previous value.
    pub fn add_rep_lock(&mut self, delay: i32, in_: usize, side_in: usize, out: usize, label: String, line: i32)
        requires
            old(self).wf(),
            in_ < old(self).nodes@.len(),
            out < old(self).nodes@.len(),
            side_in < old(self).nodes@.len(),
            1 <= delay,
        ensures
            final(self).wf(),
            final(self).cfg == old(self).cfg,
            same_names(old(self).nodes@, final(self).nodes@),
            final(self).seqs@.len() == old(self).seqs@.len() + 1,
            final(self).seqs@.drop_last() == old(self).seqs@,
            ({
                let q = final(self).seqs@.last();
                &&& q.kind == SeqKind::Rep && q.delay == delay && q.in_ == in_ && q.out == out
                &&& q.hist@ == Seq::new(delay as nat, |i: int| 0i32)
                &&& q.side_in == Some(side_in) && q.side_hist@ == seq![0i32]
                &&& q.outv == 0 && q.prev_out == 0 && q.togg@.len() == 0 && q.cooldown == 0
                &&& q.label == label && q.line == line
            }),
            final(self).nodes@.len() == old(self).nodes@.len(),
            forall|y: int| 0 <= y < old(self).nodes@.len() ==> final(self).root(y) == old(self).root(y),
            final(self).edges == old(self).edges,
            final(self).zero_reps == old(self).zero_reps,
            final(self).tick == old(self).tick,
    {
        let mut hist: VecDeque<i32> = VecDeque::new();
        let mut k: i32 = 0;
        while k < delay
            invariant
                0 <= k <= delay,
                hist@ == Seq::new(k as nat, |i: int| 0i32),
            decreases delay - k,
        {
            hist.push_back(0);
            k += 1;
            assert(hist@ =~= Seq::new(k as nat, |i: int| 0i32));
        }
        let mut side_hist: VecDeque<i32> = VecDeque::new();
        side_hist.push_back(0);
        assert(side_hist@ =~= seq![0i32]);
        self.seqs.push(CSeq {
            kind: SeqKind::Rep,
            delay,
            in_,
            out,
            hist,
            side_in: Some(side_in),
            side_hist,
            outv: 0,
            prev_out: 0,
            togg: VecDeque::new(),
            cooldown: 0,
            label,
            line,
        });
        proof {
            assert(self.seq_wf(self.seqs@.last()));
            assert(self.wf());
        }
        let ghost rm = self.root_map();
        let ghost n0 = self.nodes@;
        self.mark(out, true);
        let ghost n1 = self.nodes@;
        self.mark(in_, false);
        let ghost n2 = self.nodes@;
        self.mark(side_in, false);
        proof {
            lemma_same_names_trans(n0, n1, n2);
            lemma_same_names_trans(n0, n2, self.nodes@);
        }
        assert forall|y: int| 0 <= y < old(self).nodes@.len() implies self.root(y) == old(self).root(y) by {
            assert(self.root_map()[y] == rm[y]);
        }
    }

    /// Sets the driven value of the representative of `n`.
    pub fn set_input(&mut self, n: usize, v: i32)
        requires
            old(self).wf(),
            n < old(self).nodes@.len(),
            strength(v),
        ensures
            final(self).wf(),
            final(self).nodes@ == old(self).nodes@.update(old(self).root(n as int), CNode {
                base: v,
                ..old(self).nodes@[old(self).root(n as int)]
            }),
            forall|y: int| 0 <= y < old(self).nodes@.len() ==> final(self).root(y) == old(self).root(y),
            final(self).edges == old(self).edges,
            final(self).seqs == old(self).seqs,
            final(self).zero_reps == old(self).zero_reps,
            final(self).tick == old(self).tick,
            final(self).cfg == old(self).cfg,
    {
        proof {
            lemma_root_is_root(self.par@, self.lvl@, n as int);
        }
        let r = self.find(n);
        let ghost n0 = self.nodes@;
        self.nodes[r].base = v;
        proof {
            assert(self.nodes@ =~= n0.update(r as int, CNode { base: v, ..n0[r as int] }));
            assert forall|i: int| 0 <= i < self.nodes@.len() implies strength((#[trigger] self.nodes@[i]).value)
                && strength(self.nodes@[i].base) && strength(self.nodes@[i].prev) by {
                if i != r {
                    assert(self.nodes@[i] == n0[i]);
                }
            }
        }
    }

    /// Current value of the representative of `n`.
    pub fn read(&mut self, n: usize) -> (r: i32)
        requires
            old(self).wf(),
            n < old(self).nodes@.len(),
        ensures
            final(self).wf(),
            r == old(self).val(n as int),
            final(self).nodes == old(self).nodes,
            forall|y: int| 0 <= y < old(self).nodes@.len() ==> final(self).root(y) == old(self).root(y),
            final(self).edges == old(self).edges,
            final(self).seqs == old(self).seqs,
            final(self).zero_reps == old(self).zero_reps,
            final(self).tick == old(self).tick,
            final(self).cfg == old(self).cfg,
    {
        proof {
            lemma_root_is_root(self.par@, self.lvl@, n as int);
        }
        let r = self.find(n);
        self.nodes[r].value
    }
}

// ---- one tick ---------------------------------------------------------------------------

/// An element after computing its output for a tick (a cooling torch counts down).
pub open spec fn with_output(s: CSeq) -> CSeq {
    CSeq {
        outv: tick_output(s),
        cooldown: if s.kind == SeqKind::Torch && s.cooldown > 0 { (s.cooldown - 1) as i32 } else { s.cooldown },
        ..s
    }
}

/// Value a representative holds before the combinational network is solved: its driven
/// value for Const / Input nodes, 0 otherwise.
pub open spec fn reset_value(n: CNode) -> i32 {
    match n.kind {
        NodeKind::Const | NodeKind::Input => n.base,
        _ => 0,
    }
}

/// Strength after `decay` dust, never below 0.
pub open spec fn decayed(v: i32, decay: i32) -> i32 {
    if v - decay > 0 { (v - decay) as i32 } else { 0 }
}

/// All samples of a queue equal its last one.
pub open spec fn uniform(q: Seq<i32>) -> bool {
    forall|k: int| 0 <= k < q.len() ==> #[trigger] q[k] == q.last()
}

/// The output the element would produce next tick from its current samples.
pub open spec fn expected_output(q: CSeq) -> i32 {
    match q.kind {
        SeqKind::Observer(mode) => if obs_fires(mode, front0(q.hist@), back0(q.hist@)) {
            15
        } else {
            0
        },
        _ => if locked(q, back0(q.side_hist@)) {
            q.outv
        } else {
            seq_out(q.kind, back0(q.hist@), back0(q.side_hist@))
        },
    }
}

impl Circuit {
    /// The combinational constraint of edge `e` holds at the current values.
    pub open spec fn edge_ok(&self, e: CEdge) -> bool {
        let d = self.root(e.d as int);
        absorbed(self.nodes@[d].kind, self.nodes@[d].value, decayed(self.val(e.s as int), e.decay))
    }

    /// The constraint of a 0-tick repeater holds.
    pub open spec fn zero_rep_ok(&self, z: ZeroRep) -> bool {
        let d = self.root(z.out as int);
        absorbed(self.nodes@[d].kind, self.nodes@[d].value, if self.val(z.in_ as int) > 0 { 15 } else { 0 })
    }

    /// The output of a sequential element is absorbed at its output node.
    pub open spec fn seq_out_ok(&self, q: CSeq) -> bool {
        let d = self.root(q.out as int);
        absorbed(self.nodes@[d].kind, self.nodes@[d].value, q.outv)
    }

    /// The combinational network is at a MAX-merge fixed point.
    pub open spec fn settled(&self) -> bool {
        &&& forall|i: int| 0 <= i < self.edges@.len() ==> self.edge_ok(#[trigger] self.edges@[i])
        &&& forall|i: int| 0 <= i < self.zero_reps@.len() ==> self.zero_rep_ok(#[trigger] self.zero_reps@[i])
        &&& forall|i: int| 0 <= i < self.seqs@.len() ==> self.seq_out_ok(#[trigger] self.seqs@[i])
    }

    /// Static parts of the circuit (everything but values, samples and outputs) agree.
    pub open spec fn same_shape(&self, o: &Circuit) -> bool {
        &&& self.nodes@.len() == o.nodes@.len()
        &&& self.par == o.par
        &&& self.lvl == o.lvl
        &&& self.edges == o.edges
        &&& self.zero_reps == o.zero_reps
        &&& self.cfg == o.cfg
        &&& self.seqs@.len() == o.seqs@.len()
        &&& forall|i: int| 0 <= i < self.nodes@.len() ==> {
            let a = #[trigger] self.nodes@[i];
            let b = o.nodes@[i];
            &&& a.name == b.name && a.kind == b.kind && a.base == b.base
            &&& a.has_incoming == b.has_incoming && a.has_outgoing == b.has_outgoing
            &&& a.is_out_port == b.is_out_port && a.elem_assigned == b.elem_assigned
            &&& a.is_const_qual == b.is_const_qual
        }
        &&& forall|i: int| 0 <= i < self.seqs@.len() ==> {
            let a = #[trigger] self.seqs@[i];
            let b = o.seqs@[i];
            &&& a.kind == b.kind && a.delay == b.delay && a.in_ == b.in_ && a.out == b.out
            &&& a.side_in == b.side_in && a.label == b.label && a.line == b.line
        }
    }

    /// Phase 1: every element computes its output from its oldest samples.
    fn compute_outputs(&mut self)
        requires
            old(self).wf(),
        ensures
            final(self).wf(),
            final(self).nodes == old(self).nodes,
            final(self).par == old(self).par,
            final(self).lvl == old(self).lvl,
            final(self).edges == old(self).edges,
            final(self).zero_reps == old(self).zero_reps,
            final(self).tick == old(self).tick,
            final(self).cfg == old(self).cfg,
            final(self).warnings == old(self).warnings,
            final(self).seqs@.len() == old(self).seqs@.len(),
            forall|i: int| 0 <= i < old(self).seqs@.len() ==> #[trigger] final(self).seqs@[i] == with_output(old(self).seqs@[i]),
    {
        let n = self.seqs.len();
        let mut i: usize = 0;
        while i < n
            invariant
                n == self.seqs@.len(),
                n == old(self).seqs@.len(),
                i <= n,
                self.wf(),
                self.nodes == old(self).nodes,
                self.par == old(self).par,
                self.lvl == old(self).lvl,
                self.edges == old(self).edges,
                self.zero_reps == old(self).zero_reps,
                self.tick == old(self).tick,
                self.cfg == old(self).cfg,
                self.warnings == old(self).warnings,
                forall|j: int| 0 <= j < i ==> #[trigger] self.seqs@[j] == with_output(old(self).seqs@[j]),
                forall|j: int| i <= j < n ==> #[trigger] self.seqs@[j] == old(self).seqs@[j],
            decreases n - i,
        {
            let ghost q0 = self.seqs@[i as int];
            assert(self.seq_wf(q0));
            let kind = self.seqs[i].kind;
            let front = self.seqs[i].hist[0];
            let side_front = if self.seqs[i].side_hist.len() > 0 { self.seqs[i].side_hist[0] } else { 0 };
            let mut o = match kind {
                SeqKind::Observer(mode) => {
                    let last = self.seqs[i].hist.len() - 1;
                    let cur = self.seqs[i].hist[last];
                    observer_out(mode, front, cur)
                },
                _ => {
                    if kind == SeqKind::Rep && self.seqs[i].side_in.is_some() && side_front > 0 {
                        self.seqs[i].prev_out
                    } else {
                        seq_out_of(kind, front, side_front)
                    }
                },
            };
            if kind == SeqKind::Torch && self.seqs[i].cooldown > 0 {
                o = 0;
                self.seqs[i].cooldown = self.seqs[i].cooldown - 1;
            }
            self.seqs[i].outv = o;
            proof {
                assert(self.seqs@[i as int] == with_output(q0));
                assert forall|j: int| 0 <= j < self.seqs@.len() implies self.seq_wf(#[trigger] self.seqs@[j]) by {
                    if j != i {
                        assert(self.seqs@[j] == old(self).seqs@[j] || self.seqs@[j] == with_output(old(self).seqs@[j]));
                    }
                }
            }
            i += 1;
        }
    }
}

/// Total headroom `Σ (15 - value)` of the nodes: it strictly drops whenever a contribution
/// raises a value, which bounds the fixed-point iteration.
pub open spec fn deficit(ns: Seq<CNode>) -> int
    decreases ns.len(),
{
    if ns.len() == 0 {
        0
    } else {
        deficit(ns.drop_last()) + (15 - ns.last().value)
    }
}

proof fn lemma_deficit_update(ns: Seq<CNode>, i: int, m: CNode)
    requires
        0 <= i < ns.len(),
    ensures
        deficit(ns.update(i, m)) == deficit(ns) - (m.value - ns[i].value),
    decreases ns.len(),
{
    let u = ns.update(i, m);
    if i == ns.len() - 1 {
        assert(u.drop_last() =~= ns.drop_last());
    } else {
        assert(u.drop_last() =~= ns.drop_last().update(i, m));
        lemma_deficit_update(ns.drop_last(), i, m);
    }
}

proof fn lemma_deficit_nonneg(ns: Seq<CNode>)
    requires
        forall|i: int| 0 <= i < ns.len() ==> (#[trigger] ns[i]).value <= 15,
    ensures
        deficit(ns) >= 0,
    decreases ns.len(),
{
    if ns.len() > 0 {
        assert forall|i: int| 0 <= i < ns.drop_last().len() implies (#[trigger] ns.drop_last()[i]).value <= 15 by {
            assert(ns.drop_last()[i] == ns[i]);
        }
        lemma_deficit_nonneg(ns.drop_last());
    }
}

proof fn lemma_join_below(kind: NodeKind, cur: i32, v: i32, bd: i32, w: i32)
    requires
        cur <= bd,
        v <= w,
        absorbed(kind, bd, w),
    ensures
        joined(kind, cur, v) <= bd,
{
}

proof fn lemma_absorbed_mono(kind: NodeKind, c1: i32, c2: i32, v: i32)
    requires
        c1 <= c2,
        absorbed(kind, c1, v),
    ensures
        absorbed(kind, c2, v),
{
}

/// Values only grew and nothing else of the nodes changed.
pub open spec fn grown(a: Seq<CNode>, b: Seq<CNode>) -> bool {
    &&& a.len() == b.len()
    &&& forall|i: int| 0 <= i < a.len() ==> (#[trigger] a[i]).value <= b[i].value
        && b[i] == CNode { value: b[i].value, ..a[i] }
}

impl Circuit {
    /// Representative of `x` without touching the forest.
    fn root_ro(&self, x: usize) -> (r: usize)
        requires
            self.wf(),
            x < self.nodes@.len(),
        ensures
            r == self.root(x as int),
            r < self.nodes@.len(),
            self.par@[r as int] == r,
    {
        let mut x = x;
        proof {
            lemma_cap(self.lvl@, x as int);
            lemma_root_is_root(self.par@, self.lvl@, x as int);
        }
        let ghost x0 = x as int;
        while self.par[x] != x
            invariant
                self.wf(),
                x < self.par@.len(),
                self.root(x as int) == self.root(x0),
            decreases uf_cap(self.lvl@) - self.lvl@[x as int],
        {
            proof {
                lemma_root_step(self.par@, self.lvl@, x as int);
                lemma_cap(self.lvl@, self.par@[x as int] as int);
            }
            x = self.par[x];
        }
        proof {
            lemma_root_step(self.par@, self.lvl@, x as int);
        }
        x
    }

    /// Merges contribution `v` into representative `n`; raises `ch` if the value grew.
    fn contribute(&mut self, n: usize, v: i32, ch: &mut bool)
        requires
            old(self).wf(),
            n < old(self).nodes@.len(),
            strength(v),
        ensures
            final(self).wf(),
            final(self).nodes@ == old(self).nodes@.update(n as int, CNode {
                value: joined(old(self).nodes@[n as int].kind, old(self).nodes@[n as int].value, v),
                ..old(self).nodes@[n as int]
            }),
            *final(ch) == (*old(ch) || !absorbed(old(self).nodes@[n as int].kind, old(self).nodes@[n as int].value, v)),
            absorbed(final(self).nodes@[n as int].kind, final(self).nodes@[n as int].value, v),
            grown(old(self).nodes@, final(self).nodes@),
            !absorbed(old(self).nodes@[n as int].kind, old(self).nodes@[n as int].value, v) ==> deficit(final(self).nodes@) < deficit(old(self).nodes@),
            absorbed(old(self).nodes@[n as int].kind, old(self).nodes@[n as int].value, v) ==> final(self).nodes == old(self).nodes,
            final(self).par == old(self).par,
            final(self).lvl == old(self).lvl,
            final(self).edges == old(self).edges,
            final(self).zero_reps == old(self).zero_reps,
            final(self).seqs == old(self).seqs,
            final(self).tick == old(self).tick,
            final(self).cfg == old(self).cfg,
            final(self).warnings == old(self).warnings,
    {
        let ghost n0 = self.nodes@;
        let kind = self.nodes[n].kind;
        let cur = self.nodes[n].value;
        match kind {
            NodeKind::Const => {},
            NodeKind::Block => {
                if v > 0 && cur < 15 {
                    self.nodes[n].value = 15;
                    *ch = true;
                }
            },
            _ => {
                if v > cur {
                    self.nodes[n].value = v;
                    *ch = true;
                }
            },
        }
        proof {
            let m = CNode { value: joined(n0[n as int].kind, n0[n as int].value, v), ..n0[n as int] };
            assert(self.nodes@ =~= n0.update(n as int, m));
            lemma_deficit_update(n0, n as int, m);
            assert forall|i: int| 0 <= i < self.nodes@.len() implies strength((#[trigger] self.nodes@[i]).value)
                && strength(self.nodes@[i].base) && strength(self.nodes@[i].prev) by {
                if i != n {
                    assert(self.nodes@[i] == n0[i]);
                }
            }
        }
    }
}

/// The nodes with every representative reset to its `reset_value`.
pub open spec fn reset_all(ns: Seq<CNode>, par: Seq<usize>) -> Seq<CNode> {
    Seq::new(ns.len(), |i: int| if par[i] as int == i {
        CNode { value: reset_value(ns[i]), ..ns[i] }
    } else {
        ns[i]
    })
}

impl Circuit {
    /// `b` bounds the network from above: it is at least every representative's reset
    /// value, absorbs every element output, and is closed under edges and 0-tick repeaters.
    pub open spec fn closed_bound(&self, b: Seq<i32>) -> bool {
        &&& b.len() == self.nodes@.len()
        &&& forall|n: int| 0 <= n < self.nodes@.len() && self.par@[n] as int == n ==> #[trigger] b[n]
            >= reset_value(self.nodes@[n])
        &&& forall|i: int| 0 <= i < self.edges@.len() ==> {
            let e = #[trigger] self.edges@[i];
            let d = self.root(e.d as int);
            absorbed(self.nodes@[d].kind, b[d], decayed(b[self.root(e.s as int)], e.decay))
        }
        &&& forall|i: int| 0 <= i < self.zero_reps@.len() ==> {
            let z = #[trigger] self.zero_reps@[i];
            let d = self.root(z.out as int);
            absorbed(self.nodes@[d].kind, b[d], if b[self.root(z.in_ as int)] > 0 { 15 } else { 0 })
        }
        &&& forall|i: int| 0 <= i < self.seqs@.len() ==> {
            let q = #[trigger] self.seqs@[i];
            let d = self.root(q.out as int);
            absorbed(self.nodes@[d].kind, b[d], q.outv)
        }
    }

    /// Every representative's value is at most `b`.
    pub open spec fn below(&self, b: Seq<i32>) -> bool {
        forall|n: int| 0 <= n < self.nodes@.len() && self.par@[n] as int == n ==> #[trigger] self.nodes@[n].value
            <= b[n]
    }

    /// Solves the combinational network for this tick: representatives restart from their
    /// reset values, element outputs are merged in, and edges and 0-tick repeaters are
    /// propagated until nothing changes (MAX merge; the iteration is monotone and bounded).
    #[verifier::rlimit(40)]
    fn propagate(&mut self)
        requires
            old(self).wf(),
        ensures
            final(self).wf(),
            final(self).settled(),
            grown(reset_all(old(self).nodes@, old(self).par@), final(self).nodes@),
            final(self).least(),
            final(self).par == old(self).par,
            final(self).lvl == old(self).lvl,
            final(self).edges == old(self).edges,
            final(self).zero_reps == old(self).zero_reps,
            final(self).seqs == old(self).seqs,
            final(self).tick == old(self).tick,
            final(self).cfg == old(self).cfg,
            final(self).warnings == old(self).warnings,
    {
        // reset representatives
        let nn = self.nodes.len();
        let mut n: usize = 0;
        let ghost ns0 = self.nodes@;
        while n < nn
            invariant
                nn == self.nodes@.len(),
                n <= nn,
                self.wf(),
                self.nodes@.len() == ns0.len(),
                forall|j: int| 0 <= j < n ==> #[trigger] self.nodes@[j] == reset_all(ns0, self.par@)[j],
                forall|j: int| n <= j < nn ==> #[trigger] self.nodes@[j] == ns0[j],
                self.par == old(self).par,
                self.lvl == old(self).lvl,
                self.edges == old(self).edges,
                self.zero_reps == old(self).zero_reps,
                self.seqs == old(self).seqs,
                self.tick == old(self).tick,
                self.cfg == old(self).cfg,
                self.warnings == old(self).warnings,
            decreases nn - n,
        {
            if self.par[n] == n {
                let v = match self.nodes[n].kind {
                    NodeKind::Const | NodeKind::Input => self.nodes[n].base,
                    _ => 0,
                };
                let ghost before = self.nodes@;
                self.nodes[n].value = v;
                proof {
                    assert forall|i: int| 0 <= i < self.nodes@.len() implies strength((#[trigger] self.nodes@[i]).value)
                        && strength(self.nodes@[i].base) && strength(self.nodes@[i].prev) by {
                        if i != n {
                            assert(self.nodes@[i] == before[i]);
                        }
                    }
                }
            }
            n += 1;
        }
        assert(self.nodes@ =~= reset_all(ns0, self.par@));
        let ghost start = self.nodes@;
        let ghost c0 = *self;
        assert forall|b: Seq<i32>| #[trigger] c0.closed_bound(b) implies self.below(b) by {
            assert forall|n: int| 0 <= n < self.nodes@.len() && self.par@[n] as int == n implies #[trigger] self.nodes@[n].value
                <= b[n] by {
                assert(self.nodes@[n].value == reset_value(self.nodes@[n]));
            }
        }
        // element outputs
        let ns = self.seqs.len();
        let mut i: usize = 0;
        let mut dummy = false;
        while i < ns
            invariant
                ns == self.seqs@.len(),
                i <= ns,
                self.wf(),
                grown(start, self.nodes@),
                start == c0.nodes@,
                c0.par == self.par,
                c0.lvl == self.lvl,
                c0.edges == self.edges,
                c0.zero_reps == self.zero_reps,
                c0.seqs == self.seqs,
                forall|b: Seq<i32>| #[trigger] c0.closed_bound(b) ==> self.below(b),
                forall|j: int| 0 <= j < i ==> self.seq_out_ok(#[trigger] self.seqs@[j]),
                self.par == old(self).par,
                self.lvl == old(self).lvl,
                self.edges == old(self).edges,
                self.zero_reps == old(self).zero_reps,
                self.seqs == old(self).seqs,
                self.tick == old(self).tick,
                self.cfg == old(self).cfg,
                self.warnings == old(self).warnings,
            decreases ns - i,
        {
            assert(self.seq_wf(self.seqs@[i as int]));
            let out = self.root_ro(self.seqs[i].out);
            let outv = self.seqs[i].outv;
            let ghost before = self.nodes@;
            let ghost cb = *self;
            self.contribute(out, outv, &mut dummy);
            proof {
                assert forall|b: Seq<i32>| #[trigger] c0.closed_bound(b) implies self.below(b) by {
                    assert(cb.below(b));
                    let q = self.seqs@[i as int];
                    assert(absorbed(start[out as int].kind, b[out as int], q.outv));
                    lemma_join_below(before[out as int].kind, before[out as int].value, outv, b[out as int], outv);
                    assert forall|n: int| 0 <= n < self.nodes@.len() && self.par@[n] as int == n implies #[trigger] self.nodes@[n].value
                        <= b[n] by {
                        if n != out {
                            assert(self.nodes@[n] == before[n]);
                        }
                    }
                }
                assert forall|j: int| 0 <= j <= i implies self.seq_out_ok(#[trigger] self.seqs@[j]) by {
                    if j < i {
                        assert(self.seq_wf(self.seqs@[j]));
                        lemma_root_is_root(self.par@, self.lvl@, self.seqs@[j].out as int);
                        let d = self.root(self.seqs@[j].out as int);
                        lemma_absorbed_mono(before[d].kind, before[d].value, self.nodes@[d].value, self.seqs@[j].outv);
                    }
                }
            }
            i += 1;
        }
        // fixed point
        let ne = self.edges.len();
        let nz = self.zero_reps.len();
        let mut ch = true;
        proof {
            lemma_deficit_nonneg(self.nodes@);
        }
        while ch
            invariant
                ne == self.edges@.len(),
                nz == self.zero_reps@.len(),
                ns == self.seqs@.len(),
                self.wf(),
                grown(start, self.nodes@),
                start == c0.nodes@,
                c0.par == self.par,
                c0.lvl == self.lvl,
                c0.edges == self.edges,
                c0.zero_reps == self.zero_reps,
                c0.seqs == self.seqs,
                forall|b: Seq<i32>| #[trigger] c0.closed_bound(b) ==> self.below(b),
                forall|j: int| 0 <= j < ns ==> self.seq_out_ok(#[trigger] self.seqs@[j]),
                !ch ==> self.settled(),
                self.par == old(self).par,
                self.lvl == old(self).lvl,
                self.edges == old(self).edges,
                self.zero_reps == old(self).zero_reps,
                self.seqs == old(self).seqs,
                self.tick == old(self).tick,
                self.cfg == old(self).cfg,
                self.warnings == old(self).warnings,
            decreases deficit(self.nodes@) + if ch { 1int } else { 0int },
        {
            ch = false;
            let ghost pass_start = self.nodes@;
            let ghost d0 = deficit(self.nodes@);
            let mut ei: usize = 0;
            while ei < ne
                invariant
                    ne == self.edges@.len(),
                    ns == self.seqs@.len(),
                    ei <= ne,
                    self.wf(),
                    grown(start, self.nodes@),
                    grown(pass_start, self.nodes@),
                    start == c0.nodes@,
                    c0.par == self.par,
                    c0.lvl == self.lvl,
                    c0.edges == self.edges,
                    c0.zero_reps == self.zero_reps,
                    c0.seqs == self.seqs,
                    forall|b: Seq<i32>| #[trigger] c0.closed_bound(b) ==> self.below(b),
                    forall|j: int| 0 <= j < ns ==> self.seq_out_ok(#[trigger] self.seqs@[j]),
                    !ch ==> self.nodes@ == pass_start && forall|j: int| 0 <= j < ei ==> self.edge_ok(#[trigger] self.edges@[j]),
                    ch ==> deficit(self.nodes@) < d0,
                    !ch ==> deficit(self.nodes@) == d0,
                    self.par == old(self).par,
                    self.lvl == old(self).lvl,
                    self.edges == old(self).edges,
                    self.zero_reps == old(self).zero_reps,
                    self.seqs == old(self).seqs,
                    self.tick == old(self).tick,
                    self.cfg == old(self).cfg,
                    self.warnings == old(self).warnings,
                decreases ne - ei,
            {
                let e = self.edges[ei];
                let s = self.root_ro(e.s);
                let d = self.root_ro(e.d);
                let mut v = self.nodes[s].value - e.decay;
                if v < 0 {
                    v = 0;
                }
                let ghost before = self.nodes@;
                let ghost chb = ch;
                let ghost cb = *self;
                self.contribute(d, v, &mut ch);
                proof {
                    assert forall|b: Seq<i32>| #[trigger] c0.closed_bound(b) implies self.below(b) by {
                        assert(cb.below(b));
                        assert(absorbed(start[d as int].kind, b[d as int], decayed(b[s as int], e.decay)));
                        lemma_join_below(before[d as int].kind, before[d as int].value, v, b[d as int], decayed(b[s as int], e.decay));
                        assert forall|n: int| 0 <= n < self.nodes@.len() && self.par@[n] as int == n implies #[trigger] self.nodes@[n].value
                            <= b[n] by {
                            if n != d {
                                assert(self.nodes@[n] == before[n]);
                            }
                        }
                    }
                    assert forall|j: int| 0 <= j < ns implies self.seq_out_ok(#[trigger] self.seqs@[j]) by {
                        assert(self.seq_wf(self.seqs@[j]));
                        lemma_root_is_root(self.par@, self.lvl@, self.seqs@[j].out as int);
                        let dd = self.root(self.seqs@[j].out as int);
                        lemma_absorbed_mono(before[dd].kind, before[dd].value, self.nodes@[dd].value, self.seqs@[j].outv);
                    }
                    assert(grown(start, self.nodes@));
                    assert(grown(pass_start, self.nodes@));
                }
                ei += 1;
            }
            let mut zi: usize = 0;
            while zi < nz
                invariant
                    ne == self.edges@.len(),
                    nz == self.zero_reps@.len(),
                    ns == self.seqs@.len(),
                    zi <= nz,
                    self.wf(),
                    grown(start, self.nodes@),
                    grown(pass_start, self.nodes@),
                    start == c0.nodes@,
                    c0.par == self.par,
                    c0.lvl == self.lvl,
                    c0.edges == self.edges,
                    c0.zero_reps == self.zero_reps,
                    c0.seqs == self.seqs,
                    forall|b: Seq<i32>| #[trigger] c0.closed_bound(b) ==> self.below(b),
                    forall|j: int| 0 <= j < ns ==> self.seq_out_ok(#[trigger] self.seqs@[j]),
                    !ch ==> self.nodes@ == pass_start && (forall|j: int| 0 <= j < ne ==> self.edge_ok(#[trigger] self.edges@[j]))
                        && (forall|j: int| 0 <= j < zi ==> self.zero_rep_ok(#[trigger] self.zero_reps@[j])),
                    ch ==> deficit(self.nodes@) < d0,
                    !ch ==> deficit(self.nodes@) == d0,
                    self.par == old(self).par,
                    self.lvl == old(self).lvl,
                    self.edges == old(self).edges,
                    self.zero_reps == old(self).zero_reps,
                    self.seqs == old(self).seqs,
                    self.tick == old(self).tick,
                    self.cfg == old(self).cfg,
                    self.warnings == old(self).warnings,
                decreases nz - zi,
            {
                let z = self.zero_reps[zi];
                let s = self.root_ro(z.in_);
                let d = self.root_ro(z.out);
                let v = if self.nodes[s].value > 0 { 15 } else { 0 };
                let ghost before = self.nodes@;
                let ghost cb = *self;
                self.contribute(d, v, &mut ch);
                proof {
                    assert forall|b: Seq<i32>| #[trigger] c0.closed_bound(b) implies self.below(b) by {
                        assert(cb.below(b));
                        let w: i32 = if b[s as int] > 0 { 15 } else { 0 };
                        assert(absorbed(start[d as int].kind, b[d as int], w));
                        lemma_join_below(before[d as int].kind, before[d as int].value, v, b[d as int], w);
                        assert forall|n: int| 0 <= n < self.nodes@.len() && self.par@[n] as int == n implies #[trigger] self.nodes@[n].value
                            <= b[n] by {
                            if n != d {
                                assert(self.nodes@[n] == before[n]);
                            }
                        }
                    }
                    assert forall|j: int| 0 <= j < ns implies self.seq_out_ok(#[trigger] self.seqs@[j]) by {
                        assert(self.seq_wf(self.seqs@[j]));
                        lemma_root_is_root(self.par@, self.lvl@, self.seqs@[j].out as int);
                        let dd = self.root(self.seqs@[j].out as int);
                        lemma_absorbed_mono(before[dd].kind, before[dd].value, self.nodes@[dd].value, self.seqs@[j].outv);
                    }
                }
                zi += 1;
            }
            proof {
                lemma_deficit_nonneg(self.nodes@);
            }
        }
        proof {
            assert forall|b: Seq<i32>| #[trigger] self.closed_bound(b) implies c0.closed_bound(b) by {
                assert forall|n: int| 0 <= n < c0.nodes@.len() && c0.par@[n] as int == n implies #[trigger] b[n]
                    >= reset_value(c0.nodes@[n]) by {
                    assert(self.nodes@[n].kind == start[n].kind && self.nodes@[n].base == start[n].base);
                }
                assert forall|i: int| 0 <= i < c0.edges@.len() implies {
                    let e = #[trigger] c0.edges@[i];
                    let d = c0.root(e.d as int);
                    absorbed(c0.nodes@[d].kind, b[d], decayed(b[c0.root(e.s as int)], e.decay))
                } by {
                    let e = self.edges@[i];
                    lemma_root_is_root(self.par@, self.lvl@, e.d as int);
                    let d = self.root(e.d as int);
                    assert(self.nodes@[d].kind == start[d].kind);
                }
                assert forall|i: int| 0 <= i < c0.zero_reps@.len() implies {
                    let z = #[trigger] c0.zero_reps@[i];
                    let d = c0.root(z.out as int);
                    absorbed(c0.nodes@[d].kind, b[d], if b[c0.root(z.in_ as int)] > 0 { 15 } else { 0 })
                } by {
                    let z = self.zero_reps@[i];
                    lemma_root_is_root(self.par@, self.lvl@, z.out as int);
                    let d = self.root(z.out as int);
                    assert(self.nodes@[d].kind == start[d].kind);
                }
                assert forall|i: int| 0 <= i < c0.seqs@.len() implies {
                    let q = #[trigger] c0.seqs@[i];
                    let d = c0.root(q.out as int);
                    absorbed(c0.nodes@[d].kind, b[d], q.outv)
                } by {
                    let q = self.seqs@[i];
                    assert(self.seq_wf(q));
                    lemma_root_is_root(self.par@, self.lvl@, q.out as int);
                    let d = self.root(q.out as int);
                    assert(self.nodes@[d].kind == start[d].kind);
                }
            }
        }
    }
}

impl Circuit {
    /// The values of all nodes.
    pub open spec fn values(&self) -> Seq<i32> {
        Seq::new(self.nodes@.len(), |i: int| self.nodes@[i].value)
    }

    /// Every representative holds at least its reset value.
    pub open spec fn above_reset(&self) -> bool {
        forall|n: int| 0 <= n < self.nodes@.len() && self.par@[n] as int == n ==> #[trigger] self.nodes@[n].value
            >= reset_value(self.nodes@[n])
    }

    /// The values lie below every closed bound.
    pub open spec fn least(&self) -> bool {
        forall|b: Seq<i32>| #[trigger] self.closed_bound(b) ==> self.below(b)
    }

    /// Both circuits impose the same constraints on their values: same forest, edges,
    /// 0-tick repeaters, node kinds and bases, and element outputs.
    pub open spec fn same_constraints(&self, o: &Circuit) -> bool {
        &&& self.nodes@.len() == o.nodes@.len()
        &&& self.par == o.par
        &&& self.lvl == o.lvl
        &&& self.edges == o.edges
        &&& self.zero_reps == o.zero_reps
        &&& self.seqs@.len() == o.seqs@.len()
        &&& forall|i: int| 0 <= i < self.nodes@.len() ==> (#[trigger] self.nodes@[i]).kind == o.nodes@[i].kind
            && self.nodes@[i].base == o.nodes@[i].base
        &&& forall|i: int| 0 <= i < self.seqs@.len() ==> (#[trigger] self.seqs@[i]).outv == o.seqs@[i].outv
            && self.seqs@[i].out == o.seqs@[i].out
    }
}

/// A settled circuit whose representatives hold at least their reset values is itself a
/// closed bound of its network.
pub proof fn lemma_settled_is_closed(c: &Circuit)
    requires
        c.wf(),
        c.settled(),
        c.above_reset(),
    ensures
        c.closed_bound(c.values()),
{
    let b = c.values();
    assert forall|i: int| 0 <= i < c.edges@.len() implies {
        let e = #[trigger] c.edges@[i];
        let d = c.root(e.d as int);
        absorbed(c.nodes@[d].kind, b[d], decayed(b[c.root(e.s as int)], e.decay))
    } by {
        let e = c.edges@[i];
        assert(c.edge_ok(e));
        lemma_root_is_root(c.par@, c.lvl@, e.d as int);
        lemma_root_is_root(c.par@, c.lvl@, e.s as int);
    }
    assert forall|i: int| 0 <= i < c.zero_reps@.len() implies {
        let z = #[trigger] c.zero_reps@[i];
        let d = c.root(z.out as int);
        absorbed(c.nodes@[d].kind, b[d], if b[c.root(z.in_ as int)] > 0 { 15 } else { 0 })
    } by {
        let z = c.zero_reps@[i];
        assert(c.zero_rep_ok(z));
        lemma_root_is_root(c.par@, c.lvl@, z.out as int);
        lemma_root_is_root(c.par@, c.lvl@, z.in_ as int);
    }
    assert forall|i: int| 0 <= i < c.seqs@.len() implies {
        let q = #[trigger] c.seqs@[i];
        let d = c.root(q.out as int);
        absorbed(c.nodes@[d].kind, b[d], q.outv)
    } by {
        let q = c.seqs@[i];
        assert(c.seq_out_ok(q));
        assert(c.seq_wf(q));
        lemma_root_is_root(c.par@, c.lvl@, q.out as int);
    }
}

/// The solution of a tick does not depend on the order in which the network was relaxed:
/// two settled circuits under the same constraints, both above their reset values and below
/// every closed bound, hold the same value at every representative.
pub proof fn lemma_least_solution_unique(a: &Circuit, b: &Circuit)
    requires
        a.wf(),
        b.wf(),
        a.same_constraints(b),
        a.settled(),
        b.settled(),
        a.above_reset(),
        b.above_reset(),
        a.least(),
        b.least(),
    ensures
        forall|n: int| 0 <= n < a.nodes@.len() && a.par@[n] as int == n ==> (#[trigger] a.nodes@[n]).value
            == b.nodes@[n].value,
{
    lemma_settled_is_closed(a);
    lemma_settled_is_closed(b);
    let va = a.values();
    let vb = b.values();
    assert(a.closed_bound(vb)) by {
        assert forall|n: int| 0 <= n < a.nodes@.len() && a.par@[n] as int == n implies #[trigger] vb[n]
            >= reset_value(a.nodes@[n]) by {
            assert(b.nodes@[n].value >= reset_value(b.nodes@[n]));
        }
        assert forall|i: int| 0 <= i < a.edges@.len() implies {
            let e = #[trigger] a.edges@[i];
            let d = a.root(e.d as int);
            absorbed(a.nodes@[d].kind, vb[d], decayed(vb[a.root(e.s as int)], e.decay))
        } by {
            let e = a.edges@[i];
            assert(b.edges@[i] == e);
            lemma_root_is_root(a.par@, a.lvl@, e.d as int);
            let d = a.root(e.d as int);
            assert(a.nodes@[d].kind == b.nodes@[d].kind);
        }
        assert forall|i: int| 0 <= i < a.zero_reps@.len() implies {
            let z = #[trigger] a.zero_reps@[i];
            let d = a.root(z.out as int);
            absorbed(a.nodes@[d].kind, vb[d], if vb[a.root(z.in_ as int)] > 0 { 15 } else { 0 })
        } by {
            let z = a.zero_reps@[i];
            assert(b.zero_reps@[i] == z);
            lemma_root_is_root(a.par@, a.lvl@, z.out as int);
            let d = a.root(z.out as int);
            assert(a.nodes@[d].kind == b.nodes@[d].kind);
        }
        assert forall|i: int| 0 <= i < a.seqs@.len() implies {
            let q = #[trigger] a.seqs@[i];
            let d = a.root(q.out as int);
            absorbed(a.nodes@[d].kind, vb[d], q.outv)
        } by {
            let q = a.seqs@[i];
            let qb = b.seqs@[i];
            assert(a.seq_wf(q));
            lemma_root_is_root(a.par@, a.lvl@, q.out as int);
            let d = a.root(q.out as int);
            assert(a.nodes@[d].kind == b.nodes@[d].kind);
        }
    }
    assert(b.closed_bound(va)) by {
        assert forall|n: int| 0 <= n < b.nodes@.len() && b.par@[n] as int == n implies #[trigger] va[n]
            >= reset_value(b.nodes@[n]) by {
            assert(a.nodes@[n].value >= reset_value(a.nodes@[n]));
        }
        assert forall|i: int| 0 <= i < b.edges@.len() implies {
            let e = #[trigger] b.edges@[i];
            let d = b.root(e.d as int);
            absorbed(b.nodes@[d].kind, va[d], decayed(va[b.root(e.s as int)], e.decay))
        } by {
            let e = b.edges@[i];
            assert(a.edges@[i] == e);
            lemma_root_is_root(b.par@, b.lvl@, e.d as int);
            let d = b.root(e.d as int);
            assert(a.nodes@[d].kind == b.nodes@[d].kind);
        }
        assert forall|i: int| 0 <= i < b.zero_reps@.len() implies {
            let z = #[trigger] b.zero_reps@[i];
            let d = b.root(z.out as int);
            absorbed(b.nodes@[d].kind, va[d], if va[b.root(z.in_ as int)] > 0 { 15 } else { 0 })
        } by {
            let z = b.zero_reps@[i];
            assert(a.zero_reps@[i] == z);
            lemma_root_is_root(b.par@, b.lvl@, z.out as int);
            let d = b.root(z.out as int);
            assert(a.nodes@[d].kind == b.nodes@[d].kind);
        }
        assert forall|i: int| 0 <= i < b.seqs@.len() implies {
            let q = #[trigger] b.seqs@[i];
            let d = b.root(q.out as int);
            absorbed(b.nodes@[d].kind, va[d], q.outv)
        } by {
            let q = b.seqs@[i];
            let qa = a.seqs@[i];
            assert(qa.outv == q.outv && qa.out == q.out);
            assert(b.seq_wf(q));
            lemma_root_is_root(b.par@, b.lvl@, q.out as int);
            let d = b.root(q.out as int);
            assert(a.nodes@[d].kind == b.nodes@[d].kind);
        }
    }
    assert(a.below(vb));
    assert(b.below(va));
}

/// How an element's burnout state may change in one tick: unchanged, or a torch whose
/// output toggled and that was not cooling down starts a cooldown of `cool` ticks.
pub open spec fn cooldown_step(o: CSeq, n: CSeq, cool: i32) -> bool {
    n.cooldown == o.cooldown || (o.kind == SeqKind::Torch && o.outv != o.prev_out && o.cooldown == 0
        && n.cooldown == cool)
}

impl Circuit {
    /// Phase 3: torch burnout tracking; every element remembers its output.
    /// Returns whether some output changed or some torch is cooling down.
    fn track_outputs(&mut self, tick: i64) -> (r: bool)
        requires
            old(self).wf(),
            i64::MIN + 0x1_0000_0000 < tick < i64::MAX - 0x1_0000_0000,
        ensures
            final(self).wf(),
            final(self).nodes == old(self).nodes,
            final(self).par == old(self).par,
            final(self).lvl == old(self).lvl,
            final(self).edges == old(self).edges,
            final(self).zero_reps == old(self).zero_reps,
            final(self).tick == old(self).tick,
            final(self).cfg == old(self).cfg,
            final(self).seqs@.len() == old(self).seqs@.len(),
            final(self).warnings@.len() >= old(self).warnings@.len(),
            forall|i: int| 0 <= i < old(self).seqs@.len() ==> {
                let o = old(self).seqs@[i];
                let n = #[trigger] final(self).seqs@[i];
                &&& n == (CSeq { prev_out: o.outv, cooldown: n.cooldown, togg: n.togg, ..o })
                &&& cooldown_step(o, n, old(self).cfg.burnout_cooldown)
            },
            r == exists|i: int| 0 <= i < old(self).seqs@.len() && (old(self).seqs@[i].outv
                != old(self).seqs@[i].prev_out || (#[trigger] final(self).seqs@[i]).cooldown > 0),
    {
        let bwin = self.cfg.burnout_window;
        let blim = self.cfg.burnout_limit;
        let bcool = self.cfg.burnout_cooldown;
        let n = self.seqs.len();
        let mut changed = false;
        let mut i: usize = 0;
        while i < n
            invariant
                n == self.seqs@.len(),
                n == old(self).seqs@.len(),
                i <= n,
                self.wf(),
                bwin == self.cfg.burnout_window,
                blim == self.cfg.burnout_limit,
                bcool == self.cfg.burnout_cooldown,
                self.nodes == old(self).nodes,
                self.par == old(self).par,
                self.lvl == old(self).lvl,
                self.edges == old(self).edges,
                self.zero_reps == old(self).zero_reps,
                self.tick == old(self).tick,
                self.cfg == old(self).cfg,
                self.warnings@.len() >= old(self).warnings@.len(),
                i64::MIN + 0x1_0000_0000 < tick < i64::MAX - 0x1_0000_0000,
                old(self).wf(),
                forall|j: int| 0 <= j < i ==> {
                    let o = old(self).seqs@[j];
                    let m = #[trigger] self.seqs@[j];
                    &&& m == (CSeq { prev_out: o.outv, cooldown: m.cooldown, togg: m.togg, ..o })
                    &&& cooldown_step(o, m, bcool)
                },
                forall|j: int| i <= j < n ==> #[trigger] self.seqs@[j] == old(self).seqs@[j],
                changed == exists|j: int| 0 <= j < i && (old(self).seqs@[j].outv
                    != old(self).seqs@[j].prev_out || (#[trigger] self.seqs@[j]).cooldown > 0),
            decreases n - i,
        {
            let ghost o = self.seqs@[i as int];
            let ghost s_start = self.seqs@;
            assert(self.seq_wf(o));
            let toggled = self.seqs[i].outv != self.seqs[i].prev_out;
            if self.seqs[i].kind == SeqKind::Torch && toggled {
                self.seqs[i].togg.push_back(tick);
                let limit = tick - bwin as i64;
                let ghost before = self.seqs@;
                while self.seqs[i].togg.len() > 0 && self.seqs[i].togg[0] <= limit
                    invariant
                        i < self.seqs@.len(),
                        self.seqs@.len() == n,
                        forall|j: int| 0 <= j < n && j != i ==> #[trigger] self.seqs@[j] == before[j],
                        self.seqs@[i as int] == (CSeq { togg: self.seqs@[i as int].togg, ..before[i as int] }),
                        self.nodes == old(self).nodes,
                        self.par == old(self).par,
                        self.lvl == old(self).lvl,
                        self.edges == old(self).edges,
                        self.zero_reps == old(self).zero_reps,
                        self.tick == old(self).tick,
                        self.cfg == old(self).cfg,
                        self.warnings@.len() >= old(self).warnings@.len(),
                    decreases self.seqs@[i as int].togg@.len(),
                {
                    self.seqs[i].togg.pop_front();
                }
                let cnt = self.seqs[i].togg.len();
                if cnt as i64 > blim as i64 && self.seqs[i].cooldown == 0 {
                    let m = cat3("torch burnout: ", self.seqs[i].label.as_str(), " toggled ");
                    let c = int_str(cnt as i64);
                    let m = cat3(m.as_str(), c.as_str(), " times within ");
                    let w = int_str(bwin as i64);
                    let m = cat3(m.as_str(), w.as_str(), " ticks (tick ");
                    let t = int_str(tick);
                    let m = cat3(m.as_str(), t.as_str(), "); forced OFF for ");
                    let b = int_str(bcool as i64);
                    let m = cat3(m.as_str(), b.as_str(), " ticks");
                    self.warnings.push(Warning { line: 0, rule: None, msg: m });
                    self.seqs[i].cooldown = bcool;
                    self.seqs[i].togg.clear();
                }
            }
            let ghost changed_before = changed;
            let cd = self.seqs[i].cooldown;
            if toggled || cd > 0 {
                changed = true;
            }
            self.seqs[i].prev_out = self.seqs[i].outv;
            assert(self.seqs@[i as int].cooldown == cd);
            assert(toggled == (old(self).seqs@[i as int].outv != old(self).seqs@[i as int].prev_out));
            proof {
                assert forall|j: int| 0 <= j < self.seqs@.len() implies self.seq_wf(#[trigger] self.seqs@[j]) by {
                    if j != i {
                        if j < i {
                            assert(self.seq_wf(old(self).seqs@[j]));
                        } else {
                            assert(self.seqs@[j] == old(self).seqs@[j]);
                        }
                    }
                }
                let m = self.seqs@[i as int];
                assert(m == (CSeq { prev_out: o.outv, cooldown: m.cooldown, togg: m.togg, ..o }));
                assert(changed == exists|j: int| 0 <= j < i + 1 && (old(self).seqs@[j].outv
                    != old(self).seqs@[j].prev_out || (#[trigger] self.seqs@[j]).cooldown > 0)) by {
                    if changed_before {
                        let j = choose|j: int| 0 <= j < i && (old(self).seqs@[j].outv
                            != old(self).seqs@[j].prev_out || (#[trigger] s_start[j]).cooldown > 0);
                        assert(self.seqs@[j] == s_start[j]);
                    } else if changed {
                        assert(old(self).seqs@[i as int].outv != old(self).seqs@[i as int].prev_out
                            || self.seqs@[i as int].cooldown > 0);
                    } else {
                        assert forall|j: int| 0 <= j < i + 1 implies !(old(self).seqs@[j].outv
                            != old(self).seqs@[j].prev_out || (#[trigger] self.seqs@[j]).cooldown > 0) by {
                            if j < i {
                                assert(self.seqs@[j] == s_start[j]);
                            }
                        }
                    }
                }
            }
            i += 1;
        }
        changed
    }
}

/// The element would act again next tick: its samples differ or its output would change.
pub open spec fn unsettled(q: CSeq) -> bool {
    !uniform(q.hist@) || !uniform(q.side_hist@) || q.outv != expected_output(q)
}

/// A sample queue after shifting in `v`.
pub open spec fn shifted(q: Seq<i32>, v: i32) -> Seq<i32> {
    q.drop_first().push(v)
}

fn all_equal(q: &VecDeque<i32>, v: i32) -> (r: bool)
    ensures
        r == forall|k: int| 0 <= k < q@.len() ==> #[trigger] q@[k] == v,
{
    let n = q.len();
    let mut k: usize = 0;
    while k < n
        invariant
            n == q@.len(),
            k <= n,
            forall|j: int| 0 <= j < k ==> #[trigger] q@[j] == v,
        decreases n - k,
    {
        if q[k] != v {
            return false;
        }
        k += 1;
    }
    true
}

impl Circuit {
    /// Phase 4: every element samples its back (and side) input. Returns whether some
    /// element is unsettled after sampling.
    fn sample_inputs(&mut self) -> (r: bool)
        requires
            old(self).wf(),
        ensures
            final(self).wf(),
            final(self).nodes == old(self).nodes,
            final(self).par == old(self).par,
            final(self).lvl == old(self).lvl,
            final(self).edges == old(self).edges,
            final(self).zero_reps == old(self).zero_reps,
            final(self).tick == old(self).tick,
            final(self).cfg == old(self).cfg,
            final(self).warnings == old(self).warnings,
            final(self).seqs@.len() == old(self).seqs@.len(),
            forall|i: int| 0 <= i < old(self).seqs@.len() ==> {
                let o = old(self).seqs@[i];
                let n = #[trigger] final(self).seqs@[i];
                &&& n == (CSeq { hist: n.hist, side_hist: n.side_hist, ..o })
                &&& n.hist@ == shifted(o.hist@, old(self).val(o.in_ as int))
                &&& n.side_hist@ == match o.side_in {
                    Some(k) => shifted(o.side_hist@, old(self).val(k as int)),
                    None => o.side_hist@,
                }
            },
            r == exists|i: int| 0 <= i < old(self).seqs@.len() && unsettled(#[trigger] final(self).seqs@[i]),
    {
        let n = self.seqs.len();
        let mut changed = false;
        let mut i: usize = 0;
        while i < n
            invariant
                n == self.seqs@.len(),
                n == old(self).seqs@.len(),
                i <= n,
                self.wf(),
                old(self).wf(),
                self.nodes == old(self).nodes,
                self.par == old(self).par,
                self.lvl == old(self).lvl,
                self.edges == old(self).edges,
                self.zero_reps == old(self).zero_reps,
                self.tick == old(self).tick,
                self.cfg == old(self).cfg,
                self.warnings == old(self).warnings,
                forall|j: int| 0 <= j < i ==> {
                    let o = old(self).seqs@[j];
                    let m = #[trigger] self.seqs@[j];
                    &&& m == (CSeq { hist: m.hist, side_hist: m.side_hist, ..o })
                    &&& m.hist@ == shifted(o.hist@, old(self).val(o.in_ as int))
                    &&& m.side_hist@ == match o.side_in {
                        Some(k) => shifted(o.side_hist@, old(self).val(k as int)),
                        None => o.side_hist@,
                    }
                },
                forall|j: int| i <= j < n ==> #[trigger] self.seqs@[j] == old(self).seqs@[j],
                changed == exists|j: int| 0 <= j < i && unsettled(#[trigger] self.seqs@[j]),
            decreases n - i,
        {
            let ghost o = self.seqs@[i as int];
            let ghost s_start = self.seqs@;
            assert(self.seq_wf(o));
            let in_node = self.root_ro(self.seqs[i].in_);
            let v = self.nodes[in_node].value;
            self.seqs[i].hist.push_back(v);
            self.seqs[i].hist.pop_front();
            assert(self.seqs@[i as int].hist@ =~= shifted(o.hist@, old(self).val(o.in_ as int)));
            if let Some(sn) = self.seqs[i].side_in {
                let side_node = self.root_ro(sn);
                let sv = self.nodes[side_node].value;
                self.seqs[i].side_hist.push_back(sv);
                self.seqs[i].side_hist.pop_front();
                assert(self.seqs@[i as int].side_hist@ =~= shifted(o.side_hist@, old(self).val(sn as int)));
            }
            let hl = self.seqs[i].hist.len();
            let back = self.seqs[i].hist[hl - 1];
            let sl = self.seqs[i].side_hist.len();
            let side = if sl > 0 { self.seqs[i].side_hist[sl - 1] } else { 0 };
            let uniform_h = all_equal(&self.seqs[i].hist, back);
            let uniform_s = all_equal(&self.seqs[i].side_hist, side);
            let kind = self.seqs[i].kind;
            let outv = self.seqs[i].outv;
            let expected = match kind {
                SeqKind::Observer(mode) => {
                    let prev = self.seqs[i].hist[0];
                    observer_out(mode, prev, back)
                },
                _ => {
                    if kind == SeqKind::Rep && self.seqs[i].side_in.is_some() && side > 0 {
                        outv
                    } else {
                        proof {
                            assert(strength(self.seqs@[i as int].hist@[hl - 1]));
                        }
                        seq_out_of(kind, back, side)
                    }
                },
            };
            let ghost changed_before = changed;
            if !uniform_h || !uniform_s || outv != expected {
                changed = true;
            }
            proof {
                let m = self.seqs@[i as int];
                assert(uniform_h == uniform(m.hist@));
                assert(uniform_s == uniform(m.side_hist@));
                assert(expected == expected_output(m));
                assert forall|j: int| 0 <= j < self.seqs@.len() implies self.seq_wf(#[trigger] self.seqs@[j]) by {
                    if j == i {
                        let mm = self.seqs@[j];
                        assert forall|k: int| 0 <= k < mm.hist@.len() implies strength(#[trigger] mm.hist@[k]) by {
                            if k < mm.hist@.len() - 1 {
                                assert(mm.hist@[k] == o.hist@[k + 1]);
                            }
                        }
                        assert forall|k: int| 0 <= k < mm.side_hist@.len() implies strength(#[trigger] mm.side_hist@[k]) by {
                            if mm.side_hist@.len() == o.side_hist@.len() && o.side_in is None {
                            }
                        }
                    } else if j < i {
                        assert(self.seqs@[j] == s_start[j]);
                    } else {
                        assert(self.seqs@[j] == old(self).seqs@[j]);
                    }
                }
                assert(changed == exists|j: int| 0 <= j < i + 1 && unsettled(#[trigger] self.seqs@[j])) by {
                    if changed_before {
                        let j = choose|j: int| 0 <= j < i && unsettled(#[trigger] s_start[j]);
                        assert(self.seqs@[j] == s_start[j]);
                    } else if changed {
                        assert(unsettled(self.seqs@[i as int]));
                    } else {
                        assert forall|j: int| 0 <= j < i + 1 implies !unsettled(#[trigger] self.seqs@[j]) by {
                            if j < i {
                                assert(self.seqs@[j] == s_start[j]);
                            }
                        }
                    }
                }
            }
            i += 1;
        }
        changed
    }

    /// Phase 5: representatives remember their value. Returns whether some
    /// representative's value differs from the previous tick's.
    fn latch_values(&mut self) -> (r: bool)
        requires
            old(self).wf(),
        ensures
            final(self).wf(),
            final(self).nodes@.len() == old(self).nodes@.len(),
            forall|n: int| 0 <= n < old(self).nodes@.len() ==> #[trigger] final(self).nodes@[n] == if old(self).par@[n] as int == n {
                CNode { prev: old(self).nodes@[n].value, ..old(self).nodes@[n] }
            } else {
                old(self).nodes@[n]
            },
            final(self).par == old(self).par,
            final(self).lvl == old(self).lvl,
            final(self).edges == old(self).edges,
            final(self).zero_reps == old(self).zero_reps,
            final(self).seqs == old(self).seqs,
            final(self).tick == old(self).tick,
            final(self).cfg == old(self).cfg,
            final(self).warnings == old(self).warnings,
            r == exists|n: int| 0 <= n < old(self).nodes@.len() && old(self).par@[n] as int == n
                && (#[trigger] old(self).nodes@[n]).value != old(self).nodes@[n].prev,
    {
        let nn = self.nodes.len();
        let mut changed = false;
        let mut n: usize = 0;
        while n < nn
            invariant
                nn == self.nodes@.len(),
                nn == old(self).nodes@.len(),
                n <= nn,
                self.wf(),
                old(self).wf(),
                forall|j: int| 0 <= j < n ==> #[trigger] self.nodes@[j] == if old(self).par@[j] as int == j {
                    CNode { prev: old(self).nodes@[j].value, ..old(self).nodes@[j] }
                } else {
                    old(self).nodes@[j]
                },
                forall|j: int| n <= j < nn ==> #[trigger] self.nodes@[j] == old(self).nodes@[j],
                self.par == old(self).par,
                self.lvl == old(self).lvl,
                self.edges == old(self).edges,
                self.zero_reps == old(self).zero_reps,
                self.seqs == old(self).seqs,
                self.tick == old(self).tick,
                self.cfg == old(self).cfg,
                self.warnings == old(self).warnings,
                changed == exists|j: int| 0 <= j < n && old(self).par@[j] as int == j
                    && (#[trigger] old(self).nodes@[j]).value != old(self).nodes@[j].prev,
            decreases nn - n,
        {
            if self.par[n] == n {
                if self.nodes[n].value != self.nodes[n].prev {
                    changed = true;
                }
                let ghost before = self.nodes@;
                self.nodes[n].prev = self.nodes[n].value;
                proof {
                    assert forall|i: int| 0 <= i < self.nodes@.len() implies strength((#[trigger] self.nodes@[i]).value)
                        && strength(self.nodes@[i].base) && strength(self.nodes@[i].prev) by {
                        if i != n {
                            assert(self.nodes@[i] == before[i]);
                        }
                    }
                }
            }
            n += 1;
        }
        changed
    }
}

impl Circuit {
    /// The tick counter leaves room for one more tick.
    pub open spec fn can_step(&self) -> bool {
        i64::MIN + 0x1_0000_0000 < self.tick + 1 < i64::MAX - 0x1_0000_0000
    }

    /// Advances one redstone tick. Returns whether anything changed or will change
    /// (an output toggled, a torch is cooling down, an element is unsettled, or a
    /// representative's value differs from the previous tick).
    #[verifier::rlimit(40)]
    #[verifier::spinoff_prover]
    pub fn step(&mut self) -> (changed: bool)
        requires
            old(self).wf(),
            old(self).can_step(),
        ensures
            final(self).wf(),
            final(self).tick == old(self).tick + 1,
            final(self).same_shape(old(self)),
            final(self).settled(),
            final(self).warnings@.len() >= old(self).warnings@.len(),
            forall|i: int| 0 <= i < old(self).seqs@.len() ==> {
                let o = old(self).seqs@[i];
                let n = #[trigger] final(self).seqs@[i];
                &&& n.outv == tick_output(o)
                &&& n.prev_out == n.outv
                &&& n.hist@ == shifted(o.hist@, final(self).val(o.in_ as int))
                &&& n.side_hist@ == match o.side_in {
                    Some(k) => shifted(o.side_hist@, final(self).val(k as int)),
                    None => o.side_hist@,
                }
                &&& cooldown_step(with_output(o), n, old(self).cfg.burnout_cooldown)
            },
            forall|n: int| 0 <= n < old(self).nodes@.len() && old(self).par@[n] as int == n ==> {
                &&& (#[trigger] final(self).nodes@[n]).prev == final(self).nodes@[n].value
                &&& final(self).nodes@[n].value >= reset_value(old(self).nodes@[n])
            },
            changed == ((exists|i: int| 0 <= i < old(self).seqs@.len() && (tick_output(old(self).seqs@[i])
                != old(self).seqs@[i].prev_out || (#[trigger] final(self).seqs@[i]).cooldown > 0))
                || (exists|i: int| 0 <= i < old(self).seqs@.len() && unsettled(#[trigger] final(self).seqs@[i]))
                || (exists|n: int| 0 <= n < old(self).nodes@.len() && old(self).par@[n] as int == n
                    && (#[trigger] final(self).nodes@[n]).value != old(self).nodes@[n].prev)),
            final(self).least(),
            final(self).above_reset(),
    {
        self.tick = self.tick + 1;
        let tick = self.tick;
        let ghost s0 = *self;
        self.compute_outputs();
        let ghost s1 = *self;
        self.propagate();
        let ghost s2 = *self;
        let c3 = self.track_outputs(tick);
        let ghost s3 = *self;
        let c4 = self.sample_inputs();
        let ghost s4 = *self;
        let c5 = self.latch_values();
        proof {
            let nn = old(self).nodes@.len();
            assert forall|n: int| 0 <= n < nn && old(self).par@[n] as int == n implies {
                &&& (#[trigger] self.nodes@[n]).prev == self.nodes@[n].value
                &&& self.nodes@[n].value >= reset_value(old(self).nodes@[n])
            } by {
                assert(reset_all(s1.nodes@, s1.par@)[n].value == reset_value(old(self).nodes@[n]));
                assert(s2.nodes@[n].value >= reset_all(s1.nodes@, s1.par@)[n].value);
            }
            assert forall|i: int| 0 <= i < old(self).seqs@.len() implies {
                let o = old(self).seqs@[i];
                let n = #[trigger] self.seqs@[i];
                &&& n.outv == tick_output(o)
                &&& n.prev_out == n.outv
                &&& n.hist@ == shifted(o.hist@, self.val(o.in_ as int))
                &&& n.side_hist@ == match o.side_in {
                    Some(k) => shifted(o.side_hist@, self.val(k as int)),
                    None => o.side_hist@,
                }
                &&& cooldown_step(with_output(o), n, old(self).cfg.burnout_cooldown)
            } by {
                let o = old(self).seqs@[i];
                assert(s1.seqs@[i] == with_output(o));
                assert(s2.seqs@[i] == s1.seqs@[i]);
                assert(s4.seqs@[i] == self.seqs@[i]);
                assert(s3.seqs@[i].cooldown == s4.seqs@[i].cooldown);
                assert(self.seq_wf(self.seqs@[i]));
                lemma_root_is_root(self.par@, self.lvl@, o.in_ as int);
                assert(s3.val(o.in_ as int) == self.val(o.in_ as int));
                if let Some(k) = o.side_in {
                    lemma_root_is_root(self.par@, self.lvl@, k as int);
                    assert(s3.val(k as int) == self.val(k as int));
                }
            }
            assert(self.same_shape(old(self))) by {
                assert forall|i: int| 0 <= i < self.nodes@.len() implies {
                    let a = #[trigger] self.nodes@[i];
                    let b = old(self).nodes@[i];
                    &&& a.name == b.name && a.kind == b.kind && a.base == b.base
                    &&& a.has_incoming == b.has_incoming && a.has_outgoing == b.has_outgoing
                    &&& a.is_out_port == b.is_out_port && a.elem_assigned == b.elem_assigned
                    &&& a.is_const_qual == b.is_const_qual
                } by {
                    assert(reset_all(s1.nodes@, s1.par@)[i].name == old(self).nodes@[i].name);
                    assert(s2.nodes@[i] == (CNode { value: s2.nodes@[i].value, ..reset_all(s1.nodes@, s1.par@)[i] }));
                }
                assert forall|i: int| 0 <= i < self.seqs@.len() implies {
                    let a = #[trigger] self.seqs@[i];
                    let b = old(self).seqs@[i];
                    &&& a.kind == b.kind && a.delay == b.delay && a.in_ == b.in_ && a.out == b.out
                    &&& a.side_in == b.side_in && a.label == b.label && a.line == b.line
                } by {
                    assert(s1.seqs@[i] == with_output(old(self).seqs@[i]));
                    assert(s2.seqs@[i] == s1.seqs@[i]);
                    assert(s3.seqs@[i].kind == s2.seqs@[i].kind);
                    assert(s4.seqs@[i].kind == s3.seqs@[i].kind);
                }
            }
            assert(self.settled()) by {
                assert forall|i: int| 0 <= i < self.edges@.len() implies self.edge_ok(#[trigger] self.edges@[i]) by {
                    assert(s2.edge_ok(s2.edges@[i]));
                    let e = self.edges@[i];
                    lemma_root_is_root(self.par@, self.lvl@, e.d as int);
                    lemma_root_is_root(self.par@, self.lvl@, e.s as int);
                }
                assert forall|i: int| 0 <= i < self.zero_reps@.len() implies self.zero_rep_ok(#[trigger] self.zero_reps@[i]) by {
                    assert(s2.zero_rep_ok(s2.zero_reps@[i]));
                    let z = self.zero_reps@[i];
                    lemma_root_is_root(self.par@, self.lvl@, z.out as int);
                    lemma_root_is_root(self.par@, self.lvl@, z.in_ as int);
                }
                assert forall|i: int| 0 <= i < self.seqs@.len() implies self.seq_out_ok(#[trigger] self.seqs@[i]) by {
                    assert(s2.seq_out_ok(s2.seqs@[i]));
                    assert(s3.seqs@[i].outv == s2.seqs@[i].outv);
                    lemma_root_is_root(self.par@, self.lvl@, s2.seqs@[i].out as int);
                }
            }
            assert forall|b: Seq<i32>| #[trigger] self.closed_bound(b) implies self.below(b) by {
                assert forall|n: int| 0 <= n < s2.nodes@.len() && s2.par@[n] as int == n implies #[trigger] b[n]
                    >= reset_value(s2.nodes@[n]) by {
                    assert(self.nodes@[n].kind == s2.nodes@[n].kind && self.nodes@[n].base == s2.nodes@[n].base);
                }
                assert forall|i: int| 0 <= i < s2.edges@.len() implies {
                    let e = #[trigger] s2.edges@[i];
                    let d = s2.root(e.d as int);
                    absorbed(s2.nodes@[d].kind, b[d], decayed(b[s2.root(e.s as int)], e.decay))
                } by {
                    let e = self.edges@[i];
                    lemma_root_is_root(self.par@, self.lvl@, e.d as int);
                    let d = self.root(e.d as int);
                    assert(self.nodes@[d].kind == s2.nodes@[d].kind);
                }
                assert forall|i: int| 0 <= i < s2.zero_reps@.len() implies {
                    let z = #[trigger] s2.zero_reps@[i];
                    let d = s2.root(z.out as int);
                    absorbed(s2.nodes@[d].kind, b[d], if b[s2.root(z.in_ as int)] > 0 { 15 } else { 0 })
                } by {
                    let z = self.zero_reps@[i];
                    lemma_root_is_root(self.par@, self.lvl@, z.out as int);
                    let d = self.root(z.out as int);
                    assert(self.nodes@[d].kind == s2.nodes@[d].kind);
                }
                assert forall|i: int| 0 <= i < s2.seqs@.len() implies {
                    let q = #[trigger] s2.seqs@[i];
                    let d = s2.root(q.out as int);
                    absorbed(s2.nodes@[d].kind, b[d], q.outv)
                } by {
                    let q = s2.seqs@[i];
                    assert(s2.seq_wf(q));
                    assert(s3.seqs@[i].outv == q.outv);
                    assert(self.seqs@[i] == s4.seqs@[i]);
                    assert(s4.seqs@[i].outv == s3.seqs@[i].outv);
                    lemma_root_is_root(self.par@, self.lvl@, q.out as int);
                    let d = self.root(q.out as int);
                    assert(self.nodes@[d].kind == s2.nodes@[d].kind);
                }
                assert(s2.closed_bound(b));
                assert forall|n: int| 0 <= n < self.nodes@.len() && self.par@[n] as int == n implies #[trigger] self.nodes@[n].value
                    <= b[n] by {
                    assert(s2.nodes@[n].value <= b[n]);
                }
            }
            assert(self.above_reset()) by {
                assert forall|n: int| 0 <= n < self.nodes@.len() && self.par@[n] as int == n implies #[trigger] self.nodes@[n].value
                    >= reset_value(self.nodes@[n]) by {
                    assert(self.nodes@[n].value >= reset_value(old(self).nodes@[n]));
                    assert(self.nodes@[n].kind == old(self).nodes@[n].kind);
                    assert(self.nodes@[n].base == old(self).nodes@[n].base);
                }
            }
            assert(c3 == exists|i: int| 0 <= i < old(self).seqs@.len() && (tick_output(old(self).seqs@[i])
                != old(self).seqs@[i].prev_out || (#[trigger] self.seqs@[i]).cooldown > 0)) by {
                if c3 {
                    let i = choose|i: int| 0 <= i < s2.seqs@.len() && (s2.seqs@[i].outv
                        != s2.seqs@[i].prev_out || (#[trigger] s3.seqs@[i]).cooldown > 0);
                    assert(s2.seqs@[i] == with_output(old(self).seqs@[i]));
                    assert(self.seqs@[i].cooldown == s3.seqs@[i].cooldown);
                } else {
                    assert forall|i: int| 0 <= i < old(self).seqs@.len() implies !(tick_output(old(self).seqs@[i])
                        != old(self).seqs@[i].prev_out || (#[trigger] self.seqs@[i]).cooldown > 0) by {
                        assert(s2.seqs@[i] == with_output(old(self).seqs@[i]));
                        assert(self.seqs@[i].cooldown == s3.seqs@[i].cooldown);
                        assert(!(s2.seqs@[i].outv != s2.seqs@[i].prev_out || s3.seqs@[i].cooldown > 0));
                    }
                }
            }
            assert(c5 == exists|n: int| 0 <= n < old(self).nodes@.len() && old(self).par@[n] as int == n
                && (#[trigger] self.nodes@[n]).value != old(self).nodes@[n].prev) by {
                if c5 {
                    let n = choose|n: int| 0 <= n < s4.nodes@.len() && s4.par@[n] as int == n
                        && (#[trigger] s4.nodes@[n]).value != s4.nodes@[n].prev;
                    assert(reset_all(s1.nodes@, s1.par@)[n].prev == old(self).nodes@[n].prev);
                    assert(self.nodes@[n].value == s4.nodes@[n].value);
                    assert(s4.nodes@[n].prev == old(self).nodes@[n].prev);
                } else {
                    assert forall|n: int| 0 <= n < old(self).nodes@.len() && old(self).par@[n] as int == n implies
                        !((#[trigger] self.nodes@[n]).value != old(self).nodes@[n].prev) by {
                        assert(reset_all(s1.nodes@, s1.par@)[n].prev == old(self).nodes@[n].prev);
                        assert(self.nodes@[n].value == s4.nodes@[n].value);
                        assert(!(s4.nodes@[n].value != s4.nodes@[n].prev));
                    }
                }
            }
        }
        c3 || c4 || c5
    }
}

/// Headroom `Σ (15 - p)` of a potential vector.
pub open spec fn pdeficit(p: Seq<i32>) -> int
    decreases p.len(),
{
    if p.len() == 0 {
        0
    } else {
        pdeficit(p.drop_last()) + (15 - p.last())
    }
}

proof fn lemma_pdeficit_update(p: Seq<i32>, i: int, v: i32)
    requires
        0 <= i < p.len(),
    ensures
        pdeficit(p.update(i, v)) == pdeficit(p) - (v - p[i]),
    decreases p.len(),
{
    let u = p.update(i, v);
    if i == p.len() - 1 {
        assert(u.drop_last() =~= p.drop_last());
    } else {
        assert(u.drop_last() =~= p.drop_last().update(i, v));
        lemma_pdeficit_update(p.drop_last(), i, v);
    }
}

proof fn lemma_pdeficit_nonneg(p: Seq<i32>)
    requires
        all_strengths(p),
    ensures
        pdeficit(p) >= 0,
    decreases p.len(),
{
    if p.len() > 0 {
        assert(all_strengths(p.drop_last())) by {
            assert forall|k: int| 0 <= k < p.drop_last().len() implies strength(#[trigger] p.drop_last()[k]) by {
                assert(p.drop_last()[k] == p[k]);
            }
        }
        lemma_pdeficit_nonneg(p.drop_last());
    }
}

/// Upper bound an element's output can reach given the bound `p` of its back input:
/// repeaters and observers 15 when the input can be powered, torches always 15,
/// comparators the input's bound.
pub open spec fn seq_bound(kind: SeqKind, p: i32) -> i32 {
    match kind {
        SeqKind::Rep | SeqKind::Observer(_) => if p > 0 { 15 } else { 0 },
        SeqKind::Torch => 15,
        SeqKind::CompCmp | SeqKind::CompSub => p,
    }
}

/// Starting bound of a representative: 15 for an input, its driven value for a const.
pub open spec fn init_bound(n: CNode) -> i32 {
    match n.kind {
        NodeKind::Input => 15,
        NodeKind::Const => n.base,
        _ => 0,
    }
}

/// Joining is monotone in the current bound and in the contribution.
proof fn lemma_joined_mono(kind: NodeKind, a: i32, b: i32, v: i32, w: i32)
    requires
        strength(a),
        strength(b),
        a <= b,
        v <= w,
    ensures
        joined(kind, a, v) <= joined(kind, b, w),
{
}

/// Below `q` at every position.
pub open spec fn below(p: Seq<i32>, q: Seq<i32>) -> bool {
    p.len() == q.len() && forall|k: int| 0 <= k < p.len() ==> #[trigger] p[k] <= q[k]
}

fn join_pot(pot: &mut Vec<i32>, kind: NodeKind, n: usize, v: i32, ch: &mut bool)
    requires
        n < old(pot)@.len(),
        all_strengths(old(pot)@),
        strength(v),
    ensures
        final(pot)@ == old(pot)@.update(n as int, joined(kind, old(pot)@[n as int], v)),
        all_strengths(final(pot)@),
        *final(ch) == (*old(ch) || !absorbed(kind, old(pot)@[n as int], v)),
        !absorbed(kind, old(pot)@[n as int], v) ==> pdeficit(final(pot)@) < pdeficit(old(pot)@),
        absorbed(kind, old(pot)@[n as int], v) ==> final(pot)@ == old(pot)@,
        forall|k: int| 0 <= k < old(pot)@.len() ==> old(pot)@[k] <= #[trigger] final(pot)@[k],
{
    let cur = pot[n];
    match kind {
        NodeKind::Const => {},
        NodeKind::Block => {
            if v > 0 && cur < 15 {
                pot.set(n, 15);
                *ch = true;
            }
        },
        _ => {
            if v > cur {
                pot.set(n, v);
                *ch = true;
            }
        },
    }
    proof {
        lemma_pdeficit_update(old(pot)@, n as int, joined(kind, cur, v));
        assert(pot@ =~= old(pot)@.update(n as int, joined(kind, cur, v)));
    }
}

impl Circuit {
    /// `q` is a potential bound: a strength per node, closed under every propagation
    /// rule, and at least the starting bound at every representative.
    pub open spec fn potential_bound(&self, q: Seq<i32>) -> bool {
        &&& q.len() == self.nodes@.len()
        &&& all_strengths(q)
        &&& self.bound_closed(q)
        &&& forall|n: int| 0 <= n < self.nodes@.len() && self.par@[n] as int == n ==> #[trigger] q[n] >= init_bound(self.nodes@[n])
    }

    /// The potential bound `p` is closed under every propagation rule of the circuit.
    pub open spec fn bound_closed(&self, p: Seq<i32>) -> bool {
        &&& forall|i: int| 0 <= i < self.edges@.len() ==> {
            let e = #[trigger] self.edges@[i];
            let d = self.root(e.d as int);
            absorbed(self.nodes@[d].kind, p[d], decayed(p[self.root(e.s as int)], e.decay))
        }
        &&& forall|i: int| 0 <= i < self.zero_reps@.len() ==> {
            let z = #[trigger] self.zero_reps@[i];
            let d = self.root(z.out as int);
            absorbed(self.nodes@[d].kind, p[d], if p[self.root(z.in_ as int)] > 0 { 15 } else { 0 })
        }
        &&& forall|i: int| 0 <= i < self.seqs@.len() ==> {
            let q = #[trigger] self.seqs@[i];
            let d = self.root(q.out as int);
            absorbed(self.nodes@[d].kind, p[d], seq_bound(q.kind, p[self.root(q.in_ as int)]))
        }
    }

    /// Upper bounds of the values each representative can ever reach (index = node; only
    /// representatives are meaningful): inputs start at 15 and consts at their value, and
    /// the bounds are propagated with the tick rules (see `seq_bound`) to a fixed point.
    pub fn lint_potentials(&self) -> (pot: Vec<i32>)
        requires
            self.wf(),
        ensures
            pot@.len() == self.nodes@.len(),
            all_strengths(pot@),
            self.bound_closed(pot@),
            forall|n: int| 0 <= n < self.nodes@.len() && self.par@[n] as int == n ==> #[trigger] pot@[n]
                >= init_bound(self.nodes@[n]),
            forall|q: Seq<i32>| #[trigger] self.potential_bound(q) ==> below(pot@, q),
    {
        let nn = self.nodes.len();
        let mut pot: Vec<i32> = Vec::new();
        let mut n: usize = 0;
        while n < nn
            invariant
                nn == self.nodes@.len(),
                n <= nn,
                self.wf(),
                pot@.len() == n,
                all_strengths(pot@),
                forall|j: int| 0 <= j < n && self.par@[j] as int == j ==> #[trigger] pot@[j] == init_bound(self.nodes@[j]),
                forall|j: int| 0 <= j < n && self.par@[j] as int != j ==> #[trigger] pot@[j] == 0,
            decreases nn - n,
        {
            let v = if self.par[n] != n {
                0
            } else {
                match self.nodes[n].kind {
                    NodeKind::Input => 15,
                    NodeKind::Const => self.nodes[n].base,
                    _ => 0,
                }
            };
            pot.push(v);
            n += 1;
        }
        let ghost init = pot@;
        proof {
            assert forall|q: Seq<i32>| #[trigger] self.potential_bound(q) implies below(pot@, q) by {
                assert forall|k: int| 0 <= k < pot@.len() implies #[trigger] pot@[k] <= q[k] by {
                    assert(strength(q[k]));
                    if self.par@[k] as int == k {
                        assert(q[k] >= init_bound(self.nodes@[k]));
                    }
                }
            }
        }
        let ne = self.edges.len();
        let nz = self.zero_reps.len();
        let ns = self.seqs.len();
        let mut ch = true;
        proof {
            lemma_pdeficit_nonneg(pot@);
        }
        while ch
            invariant
                forall|q: Seq<i32>| #[trigger] self.potential_bound(q) ==> below(pot@, q),
                nn == self.nodes@.len(),
                ne == self.edges@.len(),
                nz == self.zero_reps@.len(),
                ns == self.seqs@.len(),
                self.wf(),
                pot@.len() == nn,
                all_strengths(pot@),
                forall|k: int| 0 <= k < nn ==> init[k] <= #[trigger] pot@[k],
                !ch ==> self.bound_closed(pot@),
            decreases pdeficit(pot@) + if ch { 1int } else { 0int },
        {
            ch = false;
            let ghost p0 = pot@;
            let ghost d0 = pdeficit(pot@);
            let mut ei: usize = 0;
            while ei < ne
                invariant
                    forall|q: Seq<i32>| #[trigger] self.potential_bound(q) ==> below(pot@, q),
                    nn == self.nodes@.len(),
                    ne == self.edges@.len(),
                    ei <= ne,
                    self.wf(),
                    pot@.len() == nn,
                    all_strengths(pot@),
                    forall|k: int| 0 <= k < nn ==> init[k] <= #[trigger] pot@[k],
                    !ch ==> pot@ == p0 && forall|j: int| 0 <= j < ei ==> {
                        let e = #[trigger] self.edges@[j];
                        let d = self.root(e.d as int);
                        absorbed(self.nodes@[d].kind, pot@[d], decayed(pot@[self.root(e.s as int)], e.decay))
                    },
                    ch ==> pdeficit(pot@) < d0,
                    !ch ==> pdeficit(pot@) == d0,
                decreases ne - ei,
            {
                let e = self.edges[ei];
                let s = self.root_ro(e.s);
                let d = self.root_ro(e.d);
                let mut v = pot[s] - e.decay;
                if v < 0 {
                    v = 0;
                }
                let kind = self.nodes[d].kind;
                let ghost pb = pot@;
                join_pot(&mut pot, kind, d, v, &mut ch);
                proof {
                    assert forall|q: Seq<i32>| #[trigger] self.potential_bound(q) implies below(pot@, q) by {
                        assert(below(pb, q));
                        let ee = self.edges@[ei as int];
                        assert(absorbed(self.nodes@[d as int].kind, q[d as int], decayed(q[s as int], ee.decay)));
                        assert(pb[s as int] <= q[s as int]);
                        assert(v == decayed(pb[s as int], e.decay));
                        assert(strength(q[d as int]));
                        lemma_joined_mono(kind, pb[d as int], q[d as int], v, decayed(q[s as int], ee.decay));
                        assert forall|k: int| 0 <= k < pot@.len() implies #[trigger] pot@[k] <= q[k] by {
                            assert(pb[k] <= q[k]);
                        }
                    }
                }
                ei += 1;
            }
            let mut zi: usize = 0;
            while zi < nz
                invariant
                    forall|q: Seq<i32>| #[trigger] self.potential_bound(q) ==> below(pot@, q),
                    nn == self.nodes@.len(),
                    ne == self.edges@.len(),
                    nz == self.zero_reps@.len(),
                    zi <= nz,
                    self.wf(),
                    pot@.len() == nn,
                    all_strengths(pot@),
                    forall|k: int| 0 <= k < nn ==> init[k] <= #[trigger] pot@[k],
                    !ch ==> pot@ == p0 && (forall|j: int| 0 <= j < ne ==> {
                        let e = #[trigger] self.edges@[j];
                        let d = self.root(e.d as int);
                        absorbed(self.nodes@[d].kind, pot@[d], decayed(pot@[self.root(e.s as int)], e.decay))
                    }) && (forall|j: int| 0 <= j < zi ==> {
                        let z = #[trigger] self.zero_reps@[j];
                        let d = self.root(z.out as int);
                        absorbed(self.nodes@[d].kind, pot@[d], if pot@[self.root(z.in_ as int)] > 0 { 15 } else { 0 })
                    }),
                    ch ==> pdeficit(pot@) < d0,
                    !ch ==> pdeficit(pot@) == d0,
                decreases nz - zi,
            {
                let z = self.zero_reps[zi];
                let s = self.root_ro(z.in_);
                let d = self.root_ro(z.out);
                let v = if pot[s] > 0 { 15 } else { 0 };
                let kind = self.nodes[d].kind;
                let ghost pb = pot@;
                join_pot(&mut pot, kind, d, v, &mut ch);
                proof {
                    assert forall|q: Seq<i32>| #[trigger] self.potential_bound(q) implies below(pot@, q) by {
                        assert(below(pb, q));
                        let zz = self.zero_reps@[zi as int];
                        assert(absorbed(self.nodes@[d as int].kind, q[d as int], if q[s as int] > 0 { 15 } else { 0 }));
                        assert(pb[s as int] <= q[s as int]);
                        assert(strength(q[d as int]));
                        lemma_joined_mono(kind, pb[d as int], q[d as int], v, if q[s as int] > 0 { 15 } else { 0 });
                        assert forall|k: int| 0 <= k < pot@.len() implies #[trigger] pot@[k] <= q[k] by {
                            assert(pb[k] <= q[k]);
                        }
                    }
                }
                zi += 1;
            }
            let mut si: usize = 0;
            while si < ns
                invariant
                    forall|q: Seq<i32>| #[trigger] self.potential_bound(q) ==> below(pot@, q),
                    nn == self.nodes@.len(),
                    ne == self.edges@.len(),
                    nz == self.zero_reps@.len(),
                    ns == self.seqs@.len(),
                    si <= ns,
                    self.wf(),
                    pot@.len() == nn,
                    all_strengths(pot@),
                    forall|k: int| 0 <= k < nn ==> init[k] <= #[trigger] pot@[k],
                    !ch ==> pot@ == p0 && (forall|j: int| 0 <= j < ne ==> {
                        let e = #[trigger] self.edges@[j];
                        let d = self.root(e.d as int);
                        absorbed(self.nodes@[d].kind, pot@[d], decayed(pot@[self.root(e.s as int)], e.decay))
                    }) && (forall|j: int| 0 <= j < nz ==> {
                        let z = #[trigger] self.zero_reps@[j];
                        let d = self.root(z.out as int);
                        absorbed(self.nodes@[d].kind, pot@[d], if pot@[self.root(z.in_ as int)] > 0 { 15 } else { 0 })
                    }) && (forall|j: int| 0 <= j < si ==> {
                        let q = #[trigger] self.seqs@[j];
                        let d = self.root(q.out as int);
                        absorbed(self.nodes@[d].kind, pot@[d], seq_bound(q.kind, pot@[self.root(q.in_ as int)]))
                    }),
                    ch ==> pdeficit(pot@) < d0,
                    !ch ==> pdeficit(pot@) == d0,
                decreases ns - si,
            {
                assert(self.seq_wf(self.seqs@[si as int]));
                let s = self.root_ro(self.seqs[si].in_);
                let d = self.root_ro(self.seqs[si].out);
                let ps = pot[s];
                let v = match self.seqs[si].kind {
                    SeqKind::Rep | SeqKind::Observer(_) => if ps > 0 { 15 } else { 0 },
                    SeqKind::Torch => 15,
                    SeqKind::CompCmp | SeqKind::CompSub => ps,
                };
                let kind = self.nodes[d].kind;
                let ghost pb = pot@;
                join_pot(&mut pot, kind, d, v, &mut ch);
                proof {
                    assert forall|q: Seq<i32>| #[trigger] self.potential_bound(q) implies below(pot@, q) by {
                        assert(below(pb, q));
                        let sq = self.seqs@[si as int];
                        assert(absorbed(self.nodes@[d as int].kind, q[d as int], seq_bound(sq.kind, q[s as int])));
                        assert(pb[s as int] <= q[s as int]);
                        assert(v == seq_bound(sq.kind, pb[s as int]));
                        assert(strength(q[d as int]));
                        lemma_joined_mono(kind, pb[d as int], q[d as int], v, seq_bound(sq.kind, q[s as int]));
                        assert forall|k: int| 0 <= k < pot@.len() implies #[trigger] pot@[k] <= q[k] by {
                            assert(pb[k] <= q[k]);
                        }
                    }
                }
                si += 1;
            }
            proof {
                lemma_pdeficit_nonneg(pot@);
            }
        }
        pot
    }
}
/// The representative of a node of a well-formed circuit is a node of it, and is its own
/// representative.
pub proof fn lemma_root_bound(c: &Circuit, x: int)
    requires
        c.wf(),
        0 <= x < c.nodes@.len(),
    ensures
        0 <= c.root(x) < c.nodes@.len(),
        c.root(c.root(x)) == c.root(x),
{
    lemma_root_is_root(c.par@, c.lvl@, x);
    lemma_root_step(c.par@, c.lvl@, c.root(x));
}

} // verus!
