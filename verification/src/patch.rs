//! Patches: the atomic, composable changeset every rewrite is built on.
//!
//! A rule builds a local subgraph (new nodes wired among themselves and to
//! tapped outlets of the target graph), names the outlets it replaces
//! (shunts) and the nodes it retires, and the whole edit is applied in one
//! step. Application is all-or-nothing: a patch that fails validation leaves
//! the target graph exactly as it was.

use vstd::prelude::*;

use crate::fact::{Fact, FactModel};
use crate::graph::{
    Graph, GraphModel, Inlet, Node, NodeModel, Op, OpModel, Outlet, OutputSlot, SlotModel,
};
use crate::topo::{nat_ranks, toposort};

verus! {

/// Where a patch-local wire reads from: an imported outlet of the target
/// graph, or an output of one of the patch's own nodes.
#[derive(Clone, Copy, PartialEq, Eq, Structural, Debug)]
pub enum PatchSource {
    /// Index into the patch's tap list.
    Tap(usize),
    /// (patch-local node index, output slot).
    Local(usize, usize),
}

/// An outlet of the target graph that the patch replaces everywhere it is
/// read.
#[derive(Clone, Copy, PartialEq, Eq, Structural, Debug)]
pub struct Shunt {
    pub old: Outlet,
    pub new: PatchSource,
}

/// A node the patch adds.
pub struct PatchNode {
    pub name: String,
    pub op: Op,
    pub inputs: Vec<PatchSource>,
    pub out_facts: Vec<Fact>,
}

/// Mathematical model of a patch node.
#[verifier::ext_equal]
pub ghost struct PatchNodeModel {
    pub name: Seq<char>,
    pub op: OpModel,
    pub inputs: Seq<PatchSource>,
    pub out_facts: Seq<FactModel>,
}

impl View for PatchNode {
    type V = PatchNodeModel;

    open spec fn view(&self) -> PatchNodeModel {
        PatchNodeModel {
            name: self.name@,
            op: self.op@,
            inputs: self.inputs@,
            out_facts: self.out_facts@.map_values(|f: Fact| f@),
        }
    }
}

/// An atomic changeset against one target graph.
pub struct Patch {
    /// Existing outlets the new nodes read.
    pub taps: Vec<Outlet>,
    /// The nodes to add.
    pub nodes: Vec<PatchNode>,
    /// Outlets to replace everywhere they are read.
    pub shunts: Vec<Shunt>,
    /// Nodes to retire; the rule must have rewired all their readers.
    pub dels: Vec<usize>,
}

/// Mathematical model of a patch.
#[verifier::ext_equal]
pub ghost struct PatchModel {
    pub taps: Seq<Outlet>,
    pub nodes: Seq<PatchNodeModel>,
    pub shunts: Seq<Shunt>,
    pub dels: Seq<usize>,
}

impl View for Patch {
    type V = PatchModel;

    open spec fn view(&self) -> PatchModel {
        PatchModel {
            taps: self.taps@,
            nodes: self.nodes@.map_values(|n: PatchNode| n@),
            shunts: self.shunts@,
            dels: self.dels@,
        }
    }
}

/// Why a patch was rejected. The target graph is unchanged in every case.
#[derive(Clone, Copy, PartialEq, Eq, Structural, Debug)]
pub enum PatchError {
    /// A tap, shunt or deletion names an outlet or node that is not live in
    /// the target graph.
    StaleOutlet,
    /// A wire points outside the patch, or the edit would leave some reader
    /// (an inlet, or a designated port) without a live source.
    DanglingInlet,
    /// The edit would leave two live nodes with the same name.
    DuplicateName,
    /// The edit would close a directed cycle.
    Cycle,
}

/// The patch-local wire `src`, resolved to an outlet of the edited graph
/// (new nodes live at ids `g.nodes.len()..`).
pub open spec fn resolve_src(g: GraphModel, p: PatchModel, src: PatchSource) -> Outlet {
    match src {
        PatchSource::Tap(t) => p.taps[t as int],
        PatchSource::Local(n, s) => Outlet { node: (g.nodes.len() + n) as usize, slot: s },
    }
}

/// The wire is inside the patch's bounds.
pub open spec fn src_ok(p: PatchModel, src: PatchSource) -> bool {
    match src {
        PatchSource::Tap(t) => t < p.taps.len(),
        PatchSource::Local(n, s) => n < p.nodes.len() && s < p.nodes[n as int].out_facts.len(),
    }
}

/// Where an existing inlet reading `o` reads after the patch: the first
/// matching shunt wins, and an unshunted outlet is left alone.
pub open spec fn resolve_shunt_from(g: GraphModel, p: PatchModel, o: Outlet, i: int) -> Outlet
    decreases p.shunts.len() - i,
{
    if i < 0 || i >= p.shunts.len() {
        o
    } else if p.shunts[i].old == o {
        resolve_src(g, p, p.shunts[i].new)
    } else {
        resolve_shunt_from(g, p, o, i + 1)
    }
}

pub open spec fn resolve_shunt(g: GraphModel, p: PatchModel, o: Outlet) -> Outlet {
    resolve_shunt_from(g, p, o, 0)
}

/// The nodes of the edited graph, before the successor index is rebuilt:
/// retired nodes become tombstones, surviving inlets are rewired through the
/// shunts, and the patch's nodes are appended.
pub open spec fn pre_nodes(g: GraphModel, p: PatchModel) -> Seq<NodeModel> {
    Seq::new(
        g.nodes.len() + p.nodes.len(),
        |i: int|
            if i < g.nodes.len() {
                if p.dels.contains(i as usize) {
                    NodeModel {
                        id: i as usize,
                        name: g.nodes[i].name,
                        op: OpModel::Removed,
                        inputs: Seq::empty(),
                        outputs: Seq::empty(),
                    }
                } else {
                    NodeModel {
                        id: i as usize,
                        name: g.nodes[i].name,
                        op: g.nodes[i].op,
                        inputs: g.nodes[i].inputs.map_values(|o: Outlet| resolve_shunt(g, p, o)),
                        outputs: g.nodes[i].outputs.map_values(
                            |s: SlotModel| SlotModel { fact: s.fact, successors: Seq::empty() },
                        ),
                    }
                }
            } else {
                let j = i - g.nodes.len();
                NodeModel {
                    id: i as usize,
                    name: p.nodes[j].name,
                    op: p.nodes[j].op,
                    inputs: p.nodes[j].inputs.map_values(|s: PatchSource| resolve_src(g, p, s)),
                    outputs: p.nodes[j].out_facts.map_values(
                        |f: FactModel| SlotModel { fact: f, successors: Seq::empty() },
                    ),
                }
            },
    )
}

/// The input lists of a node arena, which alone determine the successor
/// index.
pub open spec fn inputs_of(nodes: Seq<NodeModel>) -> Seq<Seq<Outlet>> {
    nodes.map_values(|n: NodeModel| n.inputs)
}

/// The inlets of node `n` among its first `k` input slots that read `o`, in
/// slot order.
pub open spec fn node_reads(inputs: Seq<Outlet>, o: Outlet, n: usize, k: int) -> Seq<Inlet>
    decreases k,
{
    if k <= 0 {
        Seq::empty()
    } else {
        node_reads(inputs, o, n, k - 1) + (if inputs[k - 1] == o {
            seq![Inlet { node: n, slot: (k - 1) as usize }]
        } else {
            Seq::empty()
        })
    }
}

/// The inlets among the first `upto` nodes that read `o`, in (node, slot)
/// order.
pub open spec fn succs_upto(ins: Seq<Seq<Outlet>>, o: Outlet, upto: int) -> Seq<Inlet>
    decreases upto,
{
    if upto <= 0 {
        Seq::empty()
    } else {
        succs_upto(ins, o, upto - 1) + node_reads(
            ins[upto - 1],
            o,
            (upto - 1) as usize,
            ins[upto - 1].len() as int,
        )
    }
}

/// The full successor index for outlet `o`: every inlet that reads it, in
/// (node, slot) order.
pub open spec fn successors_spec(ins: Seq<Seq<Outlet>>, o: Outlet) -> Seq<Inlet> {
    succs_upto(ins, o, ins.len() as int)
}

/// The arena with its successor index rebuilt from the input lists.
pub open spec fn fill_successors(nodes: Seq<NodeModel>) -> Seq<NodeModel> {
    let ins = inputs_of(nodes);
    Seq::new(
        nodes.len(),
        |m: int|
            NodeModel {
                id: nodes[m].id,
                name: nodes[m].name,
                op: nodes[m].op,
                inputs: nodes[m].inputs,
                outputs: Seq::new(
                    nodes[m].outputs.len(),
                    |s: int|
                        SlotModel {
                            fact: nodes[m].outputs[s].fact,
                            successors: successors_spec(
                                ins,
                                Outlet { node: m as usize, slot: s as usize },
                            ),
                        },
                ),
            },
    )
}

/// A graph with its successor index rebuilt.
pub open spec fn reindexed(g: GraphModel) -> GraphModel {
    GraphModel { nodes: fill_successors(g.nodes), inputs: g.inputs, outputs: g.outputs }
}

/// The edited graph: the rewired arena with its successor index rebuilt, the
/// designated inputs kept, and the designated outputs redirected through the
/// shunts.
pub open spec fn candidate(g: GraphModel, p: PatchModel) -> GraphModel {
    GraphModel {
        nodes: fill_successors(pre_nodes(g, p)),
        inputs: g.inputs,
        outputs: g.outputs.map_values(|o: Outlet| resolve_shunt(g, p, o)),
    }
}

/// A tap, shunt or deletion names something not live in the target graph.
pub open spec fn has_stale(g: GraphModel, p: PatchModel) -> bool {
    ||| exists|t: int| 0 <= t < p.taps.len() && !g.valid_outlet(#[trigger] p.taps[t])
    ||| exists|s: int| 0 <= s < p.shunts.len() && !g.valid_outlet((#[trigger] p.shunts[s]).old)
    ||| exists|d: int| 0 <= d < p.dels.len() && !g.live(#[trigger] p.dels[d] as int)
}

/// A wire of the patch points outside the patch's bounds.
pub open spec fn has_bad_src(p: PatchModel) -> bool {
    ||| exists|j: int, k: int|
        0 <= j < p.nodes.len() && 0 <= k < p.nodes[j].inputs.len() && !src_ok(
            p,
            #[trigger] p.nodes[j].inputs[k],
        )
    ||| exists|s: int| 0 <= s < p.shunts.len() && !src_ok(p, (#[trigger] p.shunts[s]).new)
}

/// Some reader of the graph (an inlet of a live node, or a designated port)
/// has no live source.
pub open spec fn has_bad_ref(c: GraphModel) -> bool {
    ||| exists|n: int, k: int|
        c.live(n) && 0 <= k < c.nodes[n].inputs.len() && !c.valid_outlet(
            #[trigger] c.nodes[n].inputs[k],
        )
    ||| exists|k: int| 0 <= k < c.inputs.len() && !c.valid_outlet(#[trigger] c.inputs[k])
    ||| exists|k: int| 0 <= k < c.outputs.len() && !c.valid_outlet(#[trigger] c.outputs[k])
}

/// A wire points outside the patch, or the edited graph would leave a reader
/// without a live source.
pub open spec fn has_dangling(g: GraphModel, p: PatchModel) -> bool {
    has_bad_src(p) || has_bad_ref(candidate(g, p))
}

/// Two live nodes of the graph carry the same name.
pub open spec fn has_name_clash(c: GraphModel) -> bool {
    exists|m: int, n: int|
        c.live(m) && c.live(n) && m != n && (#[trigger] c.nodes[m]).name == (
        #[trigger] c.nodes[n]).name
}

/// The edited graph would hold two live nodes with the same name.
pub open spec fn has_dup_name(g: GraphModel, p: PatchModel) -> bool {
    has_name_clash(candidate(g, p))
}

/// The validation verdict, in the order the checks run: how `Patch::apply`
/// will answer, decided purely by the target graph and the patch.
pub open spec fn patch_error_of(g: GraphModel, p: PatchModel) -> Option<PatchError> {
    if has_stale(g, p) {
        Some(PatchError::StaleOutlet)
    } else if has_dangling(g, p) {
        Some(PatchError::DanglingInlet)
    } else if has_dup_name(g, p) {
        Some(PatchError::DuplicateName)
    } else if !candidate(g, p).acyclic() {
        Some(PatchError::Cycle)
    } else {
        None
    }
}

impl Patch {
    /// An empty patch; applying it changes nothing.
    pub fn empty() -> (r: Patch)
        ensures
            r@.taps.len() == 0,
            r@.nodes.len() == 0,
            r@.shunts.len() == 0,
            r@.dels.len() == 0,
    {
        Patch { taps: Vec::new(), nodes: Vec::new(), shunts: Vec::new(), dels: Vec::new() }
    }

    /// Import an existing outlet for the patch's nodes to read.
    pub fn tap(&mut self, o: Outlet) -> (r: PatchSource)
        ensures
            final(self)@ == (PatchModel { taps: old(self)@.taps.push(o), ..old(self)@ }),
            r == PatchSource::Tap(old(self)@.taps.len() as usize),
    {
        let t = self.taps.len();
        self.taps.push(o);
        PatchSource::Tap(t)
    }

    /// Add a node to the patch.
    pub fn add_node(&mut self, name: String, op: Op, inputs: Vec<PatchSource>, out_facts: Vec<Fact>) -> (r:
        PatchSource)
        ensures
            final(self)@ == (PatchModel {
                nodes: old(self)@.nodes.push(
                    PatchNodeModel {
                        name: name@,
                        op: op@,
                        inputs: inputs@,
                        out_facts: out_facts@.map_values(|f: Fact| f@),
                    },
                ),
                ..old(self)@
            }),
            r == PatchSource::Local(old(self)@.nodes.len() as usize, 0usize),
    {
        let n = self.nodes.len();
        self.nodes.push(PatchNode { name, op, inputs, out_facts });
        proof {
            assert(self@.nodes =~= old(self)@.nodes.push(self.nodes@[n as int]@));
        }
        PatchSource::Local(n, 0)
    }

    /// Replace every reader of `old_outlet` with the given wire.
    pub fn shunt(&mut self, old_outlet: Outlet, new_src: PatchSource)
        ensures
            final(self)@ == (PatchModel {
                shunts: old(self)@.shunts.push(Shunt { old: old_outlet, new: new_src }),
                ..old(self)@
            }),
    {
        self.shunts.push(Shunt { old: old_outlet, new: new_src });
    }

    /// Retire a node; the patch must rewire all its readers.
    pub fn obliterate(&mut self, node: usize)
        ensures
            final(self)@ == (PatchModel { dels: old(self)@.dels.push(node), ..old(self)@ }),
    {
        self.dels.push(node);
    }
}


/// Everything `node_reads` collects is a real reader of `o` below slot `k`,
/// in strictly increasing slot order, and nothing below `k` is missed.
proof fn lemma_node_reads(inputs: Seq<Outlet>, o: Outlet, n: usize, k: int)
    requires
        0 <= k <= inputs.len(),
        inputs.len() <= usize::MAX,
    ensures
        forall|i: int|
            0 <= i < node_reads(inputs, o, n, k).len() ==> {
                let e = #[trigger] node_reads(inputs, o, n, k)[i];
                e.node == n && e.slot < k && inputs[e.slot as int] == o
            },
        forall|i: int, j: int|
            0 <= i < j < node_reads(inputs, o, n, k).len() ==> node_reads(
                inputs,
                o,
                n,
                k,
            )[i].slot < node_reads(inputs, o, n, k)[j].slot,
        forall|k2: int|
            0 <= k2 < k && inputs[k2] == o ==> node_reads(inputs, o, n, k).contains(
                Inlet { node: n, slot: k2 as usize },
            ),
    decreases k,
{
    if k > 0 {
        lemma_node_reads(inputs, o, n, k - 1);
        let prev = node_reads(inputs, o, n, k - 1);
        let cur = node_reads(inputs, o, n, k);
        assert forall|k2: int|
            0 <= k2 < k && inputs[k2] == o implies cur.contains(
            Inlet { node: n, slot: k2 as usize },
        ) by {
            if k2 < k - 1 {
                assert(prev.contains(Inlet { node: n, slot: k2 as usize }));
                let i = choose|i: int|
                    0 <= i < prev.len() && prev[i] == Inlet { node: n, slot: k2 as usize };
                assert(cur[i] == prev[i]);
            } else {
                assert(cur[cur.len() - 1] == Inlet { node: n, slot: k2 as usize });
            }
        }
    }
}

/// The same three facts for the whole index below node `upto`.
proof fn lemma_succs_upto(ins: Seq<Seq<Outlet>>, o: Outlet, upto: int)
    requires
        0 <= upto <= ins.len(),
        ins.len() <= usize::MAX,
        forall|n2: int| 0 <= n2 < ins.len() ==> (#[trigger] ins[n2]).len() <= usize::MAX,
    ensures
        forall|i: int|
            0 <= i < succs_upto(ins, o, upto).len() ==> {
                let e = #[trigger] succs_upto(ins, o, upto)[i];
                e.node < upto && e.slot < ins[e.node as int].len() && ins[e.node as int][e.slot as int]
                    == o
            },
        forall|i: int, j: int|
            0 <= i < j < succs_upto(ins, o, upto).len() ==> {
                let a = #[trigger] succs_upto(ins, o, upto)[i];
                let b = #[trigger] succs_upto(ins, o, upto)[j];
                a.node < b.node || (a.node == b.node && a.slot < b.slot)
            },
        forall|n2: int, k2: int|
            0 <= n2 < upto && 0 <= k2 < ins[n2].len() && ins[n2][k2] == o ==> succs_upto(
                ins,
                o,
                upto,
            ).contains(Inlet { node: n2 as usize, slot: k2 as usize }),
    decreases upto,
{
    if upto > 0 {
        lemma_succs_upto(ins, o, upto - 1);
        lemma_node_reads(ins[upto - 1], o, (upto - 1) as usize, ins[upto - 1].len() as int);
        let prev = succs_upto(ins, o, upto - 1);
        let tail = node_reads(ins[upto - 1], o, (upto - 1) as usize, ins[upto - 1].len() as int);
        let cur = succs_upto(ins, o, upto);
        assert forall|i: int, j: int|
            0 <= i < j < cur.len() implies {
                let a = #[trigger] cur[i];
                let b = #[trigger] cur[j];
                a.node < b.node || (a.node == b.node && a.slot < b.slot)
            } by {
            if j < prev.len() {
                assert(cur[i] == prev[i] && cur[j] == prev[j]);
            } else if i >= prev.len() {
                assert(cur[i] == tail[i - prev.len()] && cur[j] == tail[j - prev.len()]);
            } else {
                assert(cur[i] == prev[i] && cur[j] == tail[j - prev.len()]);
                assert(cur[i].node < upto - 1);
                assert(cur[j].node == (upto - 1) as usize);
            }
        }
        assert forall|n2: int, k2: int|
            0 <= n2 < upto && 0 <= k2 < ins[n2].len() && ins[n2][k2] == o implies cur.contains(
            Inlet { node: n2 as usize, slot: k2 as usize },
        ) by {
            let e = Inlet { node: n2 as usize, slot: k2 as usize };
            if n2 < upto - 1 {
                assert(prev.contains(e));
                let i = choose|i: int| 0 <= i < prev.len() && prev[i] == e;
                assert(cur[i] == e);
            } else {
                assert(tail.contains(e));
                let i = choose|i: int| 0 <= i < tail.len() && tail[i] == e;
                assert(cur[prev.len() + i] == e);
            }
        }
    }
}

/// The three facts for the finished index: it lists exactly the inlets that
/// read `o`, each once, in (node, slot) order.
pub proof fn lemma_successors_spec(ins: Seq<Seq<Outlet>>, o: Outlet)
    requires
        ins.len() <= usize::MAX,
        forall|n2: int| 0 <= n2 < ins.len() ==> (#[trigger] ins[n2]).len() <= usize::MAX,
    ensures
        forall|i: int|
            0 <= i < successors_spec(ins, o).len() ==> {
                let e = #[trigger] successors_spec(ins, o)[i];
                e.node < ins.len() && e.slot < ins[e.node as int].len() && ins[e.node as int][e.slot as int]
                    == o
            },
        forall|i: int, j: int|
            0 <= i < j < successors_spec(ins, o).len() ==> successors_spec(ins, o)[i]
                != successors_spec(ins, o)[j],
        forall|n2: int, k2: int|
            0 <= n2 < ins.len() && 0 <= k2 < ins[n2].len() && ins[n2][k2] == o ==> successors_spec(
                ins,
                o,
            ).contains(Inlet { node: n2 as usize, slot: k2 as usize }),
{
    lemma_succs_upto(ins, o, ins.len() as int);
}

/// The successor index for `o` over the given arena, rebuilt from scratch.
fn computed_successors(nodes: &Vec<Node>, o: Outlet) -> (r: Vec<Inlet>)
    ensures
        r@ == successors_spec(inputs_of(nodes@.map_values(|n: Node| n@)), o),
{
    let ghost ins = inputs_of(nodes@.map_values(|n: Node| n@));
    let mut r: Vec<Inlet> = Vec::new();
    let mut n: usize = 0;
    while n < nodes.len()
        invariant
            n <= nodes.len(),
            ins == inputs_of(nodes@.map_values(|nn: Node| nn@)),
            ins.len() == nodes.len(),
            r@ == succs_upto(ins, o, n as int),
        decreases nodes.len() - n,
    {
        let node = &nodes[n];
        assert(ins[n as int] == node.inputs@);
        let mut k: usize = 0;
        while k < node.inputs.len()
            invariant
                k <= node.inputs.len(),
                n < nodes.len(),
                node == &nodes[n as int],
                ins == inputs_of(nodes@.map_values(|nn: Node| nn@)),
                ins.len() == nodes.len(),
                ins[n as int] == node.inputs@,
                r@ == succs_upto(ins, o, n as int) + node_reads(ins[n as int], o, n, k as int),
            decreases node.inputs.len() - k,
        {
            if node.inputs[k] == o {
                r.push(Inlet { node: n, slot: k });
            }
            assert(r@ =~= succs_upto(ins, o, n as int) + node_reads(ins[n as int], o, n, k + 1));
            k += 1;
        }
        assert(r@ =~= succs_upto(ins, o, n as int + 1));
        n += 1;
    }
    assert(r@ == successors_spec(ins, o));
    r
}


/// Rebuilding the successor index changes nothing that validation or
/// scheduling reads: liveness, outlet validity, edges, rank witnesses, bad
/// references and name clashes are all preserved.
pub proof fn lemma_reindex_preserves(g: GraphModel)
    ensures
        reindexed(g).nodes.len() == g.nodes.len(),
        forall|n: int|
            0 <= n < g.nodes.len() ==> {
                let a = #[trigger] reindexed(g).nodes[n];
                let b = g.nodes[n];
                a.id == b.id && a.name == b.name && a.op == b.op && a.inputs == b.inputs
                    && a.outputs.len() == b.outputs.len()
            },
        forall|n: int| reindexed(g).live(n) <==> g.live(n),
        forall|o: Outlet| reindexed(g).valid_outlet(o) <==> g.valid_outlet(o),
        inputs_of(reindexed(g).nodes) == inputs_of(g.nodes),
        reindexed(g).inputs == g.inputs,
        reindexed(g).outputs == g.outputs,
        has_bad_ref(reindexed(g)) == has_bad_ref(g),
        has_name_clash(reindexed(g)) == has_name_clash(g),
        reindexed(g).acyclic() <==> g.acyclic(),
{
    let c = reindexed(g);
    assert forall|n: int| 0 <= n < g.nodes.len() implies {
        let a = #[trigger] c.nodes[n];
        let b = g.nodes[n];
        a.id == b.id && a.name == b.name && a.op == b.op && a.inputs == b.inputs
            && a.outputs.len() == b.outputs.len()
    } by {
        assert(c.nodes[n] == fill_successors(g.nodes)[n]);
    }
    assert(inputs_of(c.nodes) =~= inputs_of(g.nodes));
    assert forall|m: int, n: int| #[trigger] c.edge(m, n) == g.edge(m, n) by {
        if 0 <= n < g.nodes.len() {
            assert(c.nodes[n].inputs == g.nodes[n].inputs);
        }
    }

    assert forall|o: Outlet| #[trigger] c.valid_outlet(o) == g.valid_outlet(o) by {
        if 0 <= o.node < g.nodes.len() {
            assert(c.nodes[o.node as int].op == g.nodes[o.node as int].op);
            assert(c.nodes[o.node as int].outputs.len() == g.nodes[o.node as int].outputs.len());
        }
    }
    assert forall|n: int| #[trigger] c.live(n) == g.live(n) by {
        if 0 <= n < g.nodes.len() {
            assert(c.nodes[n].op == g.nodes[n].op);
        }
    }
    if has_bad_ref(g) {
        if exists|n: int, k: int|
            g.live(n) && 0 <= k < g.nodes[n].inputs.len() && !g.valid_outlet(
                #[trigger] g.nodes[n].inputs[k],
            ) {
            let (n, k): (int, int) = choose|n: int, k: int|
                g.live(n) && 0 <= k < g.nodes[n].inputs.len() && !g.valid_outlet(
                    #[trigger] g.nodes[n].inputs[k],
                );
            assert(c.nodes[n].inputs[k] == g.nodes[n].inputs[k]);
            assert(!c.valid_outlet(c.nodes[n].inputs[k]));
            assert(has_bad_ref(c));
        } else if exists|k: int| 0 <= k < g.inputs.len() && !g.valid_outlet(#[trigger] g.inputs[k]) {
            let k = choose|k: int|
                0 <= k < g.inputs.len() && !g.valid_outlet(#[trigger] g.inputs[k]);
            assert(!c.valid_outlet(c.inputs[k]));
            assert(has_bad_ref(c));
        } else {
            let k = choose|k: int|
                0 <= k < g.outputs.len() && !g.valid_outlet(#[trigger] g.outputs[k]);
            assert(!c.valid_outlet(c.outputs[k]));
            assert(has_bad_ref(c));
        }
    }
    if has_bad_ref(c) {
        if exists|n: int, k: int|
            c.live(n) && 0 <= k < c.nodes[n].inputs.len() && !c.valid_outlet(
                #[trigger] c.nodes[n].inputs[k],
            ) {
            let (n, k): (int, int) = choose|n: int, k: int|
                c.live(n) && 0 <= k < c.nodes[n].inputs.len() && !c.valid_outlet(
                    #[trigger] c.nodes[n].inputs[k],
                );
            assert(g.nodes[n].inputs[k] == c.nodes[n].inputs[k]);
            assert(!g.valid_outlet(g.nodes[n].inputs[k]));
            assert(has_bad_ref(g));
        } else if exists|k: int| 0 <= k < c.inputs.len() && !c.valid_outlet(#[trigger] c.inputs[k]) {
            let k = choose|k: int|
                0 <= k < c.inputs.len() && !c.valid_outlet(#[trigger] c.inputs[k]);
            assert(!g.valid_outlet(g.inputs[k]));
            assert(has_bad_ref(g));
        } else {
            let k = choose|k: int|
                0 <= k < c.outputs.len() && !c.valid_outlet(#[trigger] c.outputs[k]);
            assert(!g.valid_outlet(g.outputs[k]));
            assert(has_bad_ref(g));
        }
    }
    if has_name_clash(g) {
        let (m, n): (int, int) = choose|m: int, n: int|
            g.live(m) && g.live(n) && m != n && (#[trigger] g.nodes[m]).name == (
            #[trigger] g.nodes[n]).name;
        assert(c.nodes[m].name == c.nodes[n].name);
        assert(has_name_clash(c));
    }
    if has_name_clash(c) {
        let (m, n): (int, int) = choose|m: int, n: int|
            c.live(m) && c.live(n) && m != n && (#[trigger] c.nodes[m]).name == (
            #[trigger] c.nodes[n]).name;
        assert(g.nodes[m].name == g.nodes[n].name);
        assert(has_name_clash(g));
    }
    if c.acyclic() {
        let r = choose|r: Seq<nat>| c.respects_ranks(r);
        assert forall|m: int, n: int|
            0 <= m < g.nodes.len() && 0 <= n < g.nodes.len() && g.edge(m, n) implies r[m]
            < r[n] by {
            assert(c.edge(m, n));
        }
        assert(g.respects_ranks(r));
    }
    if g.acyclic() {
        let r = choose|r: Seq<nat>| g.respects_ranks(r);
        assert forall|m: int, n: int|
            0 <= m < c.nodes.len() && 0 <= n < c.nodes.len() && c.edge(m, n) implies r[m]
            < r[n] by {
            assert(g.edge(m, n));
        }
        assert(c.respects_ranks(r));
    }
}

/// The operation is a tombstone.
fn is_removed(op: &Op) -> (r: bool)
    ensures
        r == (op@ is Removed),
{
    match op {
        Op::Removed => true,
        _ => false,
    }
}

/// Runtime form of `valid_outlet`.
pub fn outlet_ok(g: &Graph, o: Outlet) -> (r: bool)
    ensures
        r == g@.valid_outlet(o),
{
    o.node < g.nodes.len() && !is_removed(&g.nodes[o.node].op) && o.slot
        < g.nodes[o.node].outputs.len()
}

/// Runtime form of `live`.
fn node_live(g: &Graph, n: usize) -> (r: bool)
    ensures
        r == g@.live(n as int),
{
    n < g.nodes.len() && !is_removed(&g.nodes[n].op)
}

/// Runtime form of `src_ok`.
fn src_ok_exec(p: &Patch, src: PatchSource) -> (r: bool)
    ensures
        r == src_ok(p@, src),
{
    match src {
        PatchSource::Tap(t) => t < p.taps.len(),
        PatchSource::Local(n, s) => n < p.nodes.len() && s < p.nodes[n].out_facts.len(),
    }
}

/// Runtime form of `has_stale`.
fn check_stale(g: &Graph, p: &Patch) -> (r: bool)
    ensures
        r == has_stale(g@, p@),
{
    let mut t: usize = 0;
    while t < p.taps.len()
        invariant
            t <= p.taps.len(),
            forall|t2: int| 0 <= t2 < t ==> g@.valid_outlet(#[trigger] p@.taps[t2]),
        decreases p.taps.len() - t,
    {
        if !outlet_ok(g, p.taps[t]) {
            proof {
                assert(!g@.valid_outlet(p@.taps[t as int]));
            }
            return true;
        }
        t += 1;
    }
    let mut sh: usize = 0;
    while sh < p.shunts.len()
        invariant
            sh <= p.shunts.len(),
            forall|s2: int| 0 <= s2 < sh ==> g@.valid_outlet((#[trigger] p@.shunts[s2]).old),
        decreases p.shunts.len() - sh,
    {
        if !outlet_ok(g, p.shunts[sh].old) {
            proof {
                assert(!g@.valid_outlet((p@.shunts[sh as int]).old));
            }
            return true;
        }
        sh += 1;
    }
    let mut d: usize = 0;
    while d < p.dels.len()
        invariant
            d <= p.dels.len(),
            forall|d2: int| 0 <= d2 < d ==> g@.live(#[trigger] p@.dels[d2] as int),
        decreases p.dels.len() - d,
    {
        if !node_live(g, p.dels[d]) {
            proof {
                assert(!g@.live(p@.dels[d as int] as int));
            }
            return true;
        }
        d += 1;
    }
    false
}

/// Runtime form of `has_bad_src`.
fn check_srcs(p: &Patch) -> (r: bool)
    ensures
        r == has_bad_src(p@),
{
    let mut j: usize = 0;
    while j < p.nodes.len()
        invariant
            j <= p.nodes.len(),
            forall|j2: int, k2: int|
                0 <= j2 < j && 0 <= k2 < p@.nodes[j2].inputs.len() ==> src_ok(
                    p@,
                    #[trigger] p@.nodes[j2].inputs[k2],
                ),
        decreases p.nodes.len() - j,
    {
        let mut k: usize = 0;
        while k < p.nodes[j].inputs.len()
            invariant
                j < p.nodes.len(),
                k <= p@.nodes[j as int].inputs.len(),
                forall|j2: int, k2: int|
                    0 <= j2 < j && 0 <= k2 < p@.nodes[j2].inputs.len() ==> src_ok(
                        p@,
                        #[trigger] p@.nodes[j2].inputs[k2],
                    ),
                forall|k2: int|
                    0 <= k2 < k ==> src_ok(p@, #[trigger] p@.nodes[j as int].inputs[k2]),
            decreases p.nodes[j as int].inputs.len() - k,
        {
            if !src_ok_exec(p, p.nodes[j].inputs[k]) {
                proof {
                    assert(!src_ok(p@, p@.nodes[j as int].inputs[k as int]));
                }
                return true;
            }
            k += 1;
        }
        j += 1;
    }
    let mut sh: usize = 0;
    while sh < p.shunts.len()
        invariant
            sh <= p.shunts.len(),
            !(exists|j2: int, k2: int|
                0 <= j2 < p@.nodes.len() && 0 <= k2 < p@.nodes[j2].inputs.len() && !src_ok(
                    p@,
                    #[trigger] p@.nodes[j2].inputs[k2],
                )),
            forall|s2: int| 0 <= s2 < sh ==> src_ok(p@, (#[trigger] p@.shunts[s2]).new),
        decreases p.shunts.len() - sh,
    {
        if !src_ok_exec(p, p.shunts[sh].new) {
            return true;
        }
        sh += 1;
    }
    false
}

/// Runtime form of `has_bad_ref`.
fn check_refs(c: &Graph) -> (r: bool)
    ensures
        r == has_bad_ref(c@),
{
    let mut n: usize = 0;
    while n < c.nodes.len()
        invariant
            n <= c.nodes.len(),
            forall|n2: int, k2: int|
                0 <= n2 < n && c@.live(n2) && 0 <= k2 < c@.nodes[n2].inputs.len()
                    ==> c@.valid_outlet(#[trigger] c@.nodes[n2].inputs[k2]),
        decreases c.nodes.len() - n,
    {
        if node_live(c, n) {
            let mut k: usize = 0;
            while k < c.nodes[n].inputs.len()
                invariant
                    n < c.nodes.len(),
                    c@.live(n as int),
                    k <= c@.nodes[n as int].inputs.len(),
                    forall|n2: int, k2: int|
                        0 <= n2 < n && c@.live(n2) && 0 <= k2 < c@.nodes[n2].inputs.len()
                            ==> c@.valid_outlet(#[trigger] c@.nodes[n2].inputs[k2]),
                    forall|k2: int|
                        0 <= k2 < k ==> c@.valid_outlet(#[trigger] c@.nodes[n as int].inputs[k2]),
                decreases c.nodes[n as int].inputs.len() - k,
            {
                if !outlet_ok(c, c.nodes[n].inputs[k]) {
                    proof {
                        assert(c@.live(n as int));
                        assert(!c@.valid_outlet(c@.nodes[n as int].inputs[k as int]));
                    }
                    return true;
                }
                k += 1;
            }
        }
        n += 1;
    }
    let mut k: usize = 0;
    while k < c.inputs.len()
        invariant
            k <= c.inputs.len(),
            !(exists|n2: int, k2: int|
                c@.live(n2) && 0 <= k2 < c@.nodes[n2].inputs.len() && !c@.valid_outlet(
                    #[trigger] c@.nodes[n2].inputs[k2],
                )),
            forall|k2: int| 0 <= k2 < k ==> c@.valid_outlet(#[trigger] c@.inputs[k2]),
        decreases c.inputs.len() - k,
    {
        if !outlet_ok(c, c.inputs[k]) {
            proof {
                assert(!c@.valid_outlet(c@.inputs[k as int]));
            }
            return true;
        }
        k += 1;
    }
    let mut k2: usize = 0;
    while k2 < c.outputs.len()
        invariant
            k2 <= c.outputs.len(),
            !(exists|n2: int, kk: int|
                c@.live(n2) && 0 <= kk < c@.nodes[n2].inputs.len() && !c@.valid_outlet(
                    #[trigger] c@.nodes[n2].inputs[kk],
                )),
            forall|kk: int| 0 <= kk < c.inputs.len() ==> c@.valid_outlet(#[trigger] c@.inputs[kk]),
            forall|kk: int| 0 <= kk < k2 ==> c@.valid_outlet(#[trigger] c@.outputs[kk]),
        decreases c.outputs.len() - k2,
    {
        if !outlet_ok(c, c.outputs[k2]) {
            proof {
                assert(!c@.valid_outlet(c@.outputs[k2 as int]));
            }
            return true;
        }
        k2 += 1;
    }
    false
}

/// Runtime form of `has_name_clash`.
fn check_names(c: &Graph) -> (r: bool)
    ensures
        r == has_name_clash(c@),
{
    let mut m: usize = 0;
    while m < c.nodes.len()
        invariant
            m <= c.nodes.len(),
            forall|m2: int, n2: int|
                0 <= m2 < m && c@.live(m2) && c@.live(n2) && m2 != n2 ==> (
                #[trigger] c@.nodes[m2]).name != (#[trigger] c@.nodes[n2]).name,
        decreases c.nodes.len() - m,
    {
        if node_live(c, m) {
            let mut n: usize = m + 1;
            while n < c.nodes.len()
                invariant
                    m < n,
                    n <= c.nodes.len(),
                    c@.live(m as int),
                    forall|m2: int, n2: int|
                        0 <= m2 < m && c@.live(m2) && c@.live(n2) && m2 != n2 ==> (
                        #[trigger] c@.nodes[m2]).name != (#[trigger] c@.nodes[n2]).name,
                    forall|n2: int|
                        m < n2 < n && c@.live(n2) ==> (#[trigger] c@.nodes[n2]).name
                            != c@.nodes[m as int].name,
                decreases c.nodes.len() - n,
            {
                if node_live(c, n) && c.nodes[m].name == c.nodes[n].name {
                    proof {
                        assert(c@.live(m as int) && c@.live(n as int));
                        assert(c@.nodes[m as int].name == c@.nodes[n as int].name);
                    }
                    return true;
                }
                n += 1;
            }
        }
        m += 1;
    }
    false
}


/// Is node `i` marked for deletion?
fn del_marked(p: &Patch, i: usize) -> (r: bool)
    ensures
        r == p@.dels.contains(i),
{
    let mut d: usize = 0;
    while d < p.dels.len()
        invariant
            d <= p.dels.len(),
            forall|d2: int| 0 <= d2 < d ==> p@.dels[d2] != i,
        decreases p.dels.len() - d,
    {
        if p.dels[d] == i {
            assert(p@.dels.contains(i));
            return true;
        }
        d += 1;
    }
    false
}

/// Runtime form of `resolve_src`.
fn resolve_src_exec(g: &Graph, p: &Patch, src: PatchSource) -> (r: Outlet)
    requires
        src_ok(p@, src),
        g@.nodes.len() + p@.nodes.len() <= usize::MAX,
    ensures
        r == resolve_src(g@, p@, src),
{
    match src {
        PatchSource::Tap(t) => p.taps[t],
        PatchSource::Local(n, s) => Outlet { node: g.nodes.len() + n, slot: s },
    }
}

/// Runtime form of `resolve_shunt`.
fn resolve_shunt_exec(g: &Graph, p: &Patch, o: Outlet) -> (r: Outlet)
    requires
        !has_bad_src(p@),
        g@.nodes.len() + p@.nodes.len() <= usize::MAX,
    ensures
        r == resolve_shunt(g@, p@, o),
{
    let mut i: usize = 0;
    while i < p.shunts.len()
        invariant
            i <= p.shunts.len(),
            !has_bad_src(p@),
            g@.nodes.len() + p@.nodes.len() <= usize::MAX,
            resolve_shunt(g@, p@, o) == resolve_shunt_from(g@, p@, o, i as int),
        decreases p.shunts.len() - i,
    {
        if p.shunts[i].old == o {
            proof {
                assert(src_ok(p@, p@.shunts[i as int].new));
            }
            return resolve_src_exec(g, p, p.shunts[i].new);
        }
        i += 1;
    }
    o
}

/// Build the rewired arena (successor index not yet rebuilt), together with
/// the redirected designated outputs.
fn build_pre(g: &Graph, p: &Patch) -> (c: Graph)
    requires
        !has_stale(g@, p@),
        !has_bad_src(p@),
        g@.nodes.len() + p@.nodes.len() <= usize::MAX,
    ensures
        c@.nodes == pre_nodes(g@, p@),
        c@.inputs == g@.inputs,
        c@.outputs == g@.outputs.map_values(|o: Outlet| resolve_shunt(g@, p@, o)),
{
    let ghost pn = pre_nodes(g@, p@);
    let mut nodes: Vec<Node> = Vec::new();
    let mut i: usize = 0;
    while i < g.nodes.len()
        invariant
            i <= g.nodes.len(),
            nodes.len() == i,
            !has_stale(g@, p@),
            !has_bad_src(p@),
            g@.nodes.len() + p@.nodes.len() <= usize::MAX,
            pn == pre_nodes(g@, p@),
            forall|j: int| 0 <= j < i ==> nodes@[j]@ == pn[j],
        decreases g.nodes.len() - i,
    {
        let gn = &g.nodes[i];
        if del_marked(p, i) {
            let node = Node {
                id: i,
                name: gn.name.clone(),
                op: Op::Removed,
                inputs: Vec::new(),
                outputs: Vec::new(),
            };
            proof {
                assert(node@ =~= pn[i as int]);
            }
            nodes.push(node);
        } else {
            let mut inputs: Vec<Outlet> = Vec::new();
            let mut k: usize = 0;
            while k < gn.inputs.len()
                invariant
                    k <= gn.inputs.len(),
                    inputs.len() == k,
                    gn == &g.nodes[i as int],
                    i < g.nodes.len(),
                    !has_bad_src(p@),
                    g@.nodes.len() + p@.nodes.len() <= usize::MAX,
                    forall|k2: int|
                        0 <= k2 < k ==> inputs@[k2] == resolve_shunt(
                            g@,
                            p@,
                            g@.nodes[i as int].inputs[k2],
                        ),
                decreases gn.inputs.len() - k,
            {
                inputs.push(resolve_shunt_exec(g, p, gn.inputs[k]));
                k += 1;
            }
            let mut outputs: Vec<OutputSlot> = Vec::new();
            let mut t: usize = 0;
            while t < gn.outputs.len()
                invariant
                    t <= gn.outputs.len(),
                    outputs.len() == t,
                    gn == &g.nodes[i as int],
                    i < g.nodes.len(),
                    forall|t2: int|
                        0 <= t2 < t ==> outputs@[t2]@ == (SlotModel {
                            fact: g@.nodes[i as int].outputs[t2].fact,
                            successors: Seq::<Inlet>::empty(),
                        }),
                decreases gn.outputs.len() - t,
            {
                let slot = OutputSlot { fact: gn.outputs[t].fact.duplicate(), successors: Vec::new() };
                proof {
                    assert(slot@ =~= (SlotModel {
                        fact: g@.nodes[i as int].outputs[t as int].fact,
                        successors: Seq::<Inlet>::empty(),
                    }));
                }
                outputs.push(slot);
                t += 1;
            }
            let node = Node { id: i, name: gn.name.clone(), op: gn.op.duplicate(), inputs, outputs };
            proof {
                assert(node@.inputs =~= pn[i as int].inputs);
                assert(node@.outputs =~= pn[i as int].outputs);
                assert(node@ =~= pn[i as int]);
            }
            nodes.push(node);
        }
        i += 1;
    }
    let mut j: usize = 0;
    while j < p.nodes.len()
        invariant
            j <= p.nodes.len(),
            nodes.len() == g.nodes.len() + j,
            !has_bad_src(p@),
            g@.nodes.len() + p@.nodes.len() <= usize::MAX,
            pn == pre_nodes(g@, p@),
            forall|j2: int| 0 <= j2 < g.nodes.len() + j ==> nodes@[j2]@ == pn[j2],
        decreases p.nodes.len() - j,
    {
        let pnj = &p.nodes[j];
        let mut inputs: Vec<Outlet> = Vec::new();
        let mut k: usize = 0;
        while k < pnj.inputs.len()
            invariant
                k <= pnj.inputs.len(),
                inputs.len() == k,
                pnj == &p.nodes[j as int],
                j < p.nodes.len(),
                !has_bad_src(p@),
                g@.nodes.len() + p@.nodes.len() <= usize::MAX,
                forall|k2: int|
                    0 <= k2 < k ==> inputs@[k2] == resolve_src(
                        g@,
                        p@,
                        p@.nodes[j as int].inputs[k2],
                    ),
            decreases pnj.inputs.len() - k,
        {
            proof {
                assert(p@.nodes[j as int].inputs[k as int] == pnj.inputs@[k as int]);
                assert(src_ok(p@, p@.nodes[j as int].inputs[k as int]));
            }
            inputs.push(resolve_src_exec(g, p, pnj.inputs[k]));
            k += 1;
        }
        let mut outputs: Vec<OutputSlot> = Vec::new();
        let mut t: usize = 0;
        while t < pnj.out_facts.len()
            invariant
                t <= pnj.out_facts.len(),
                outputs.len() == t,
                pnj == &p.nodes[j as int],
                j < p.nodes.len(),
                forall|t2: int|
                    0 <= t2 < t ==> outputs@[t2]@ == (SlotModel {
                        fact: p@.nodes[j as int].out_facts[t2],
                        successors: Seq::<Inlet>::empty(),
                    }),
            decreases pnj.out_facts.len() - t,
        {
            let slot = OutputSlot { fact: pnj.out_facts[t].duplicate(), successors: Vec::new() };
            proof {
                assert(p@.nodes[j as int].out_facts[t as int] == pnj.out_facts@[t as int]@);
                assert(slot@ =~= (SlotModel {
                    fact: p@.nodes[j as int].out_facts[t as int],
                    successors: Seq::<Inlet>::empty(),
                }));
            }
            outputs.push(slot);
            t += 1;
        }
        let node = Node {
            id: g.nodes.len() + j,
            name: pnj.name.clone(),
            op: pnj.op.duplicate(),
            inputs,
            outputs,
        };
        proof {
            assert(p@.nodes[j as int].name == pnj.name@);
            assert(p@.nodes[j as int].op == pnj.op@);
            assert(p@.nodes[j as int].inputs == pnj.inputs@);
            assert(node@.inputs =~= pn[g@.nodes.len() + j].inputs);
            assert(node@.outputs =~= pn[g@.nodes.len() + j].outputs);
            assert(node@ =~= pn[g@.nodes.len() + j]);
        }
        nodes.push(node);
        j += 1;
    }
    let mut outputs: Vec<Outlet> = Vec::new();
    let mut k: usize = 0;
    while k < g.outputs.len()
        invariant
            k <= g.outputs.len(),
            outputs.len() == k,
            !has_bad_src(p@),
            g@.nodes.len() + p@.nodes.len() <= usize::MAX,
            forall|k2: int|
                0 <= k2 < k ==> outputs@[k2] == resolve_shunt(g@, p@, g@.outputs[k2]),
        decreases g.outputs.len() - k,
    {
        outputs.push(resolve_shunt_exec(g, p, g.outputs[k]));
        k += 1;
    }
    let c = Graph { nodes, inputs: crate::graph::clone_outlets(&g.inputs), outputs };
    proof {
        assert(c@.nodes =~= pn);
        assert(c@.outputs =~= g@.outputs.map_values(|o: Outlet| resolve_shunt(g@, p@, o)));
    }
    c
}

/// Rebuild the successor index of the whole arena.
fn reindex(c: &Graph) -> (r: Graph)
    ensures
        r@ == reindexed(c@),
{
    let ghost filled = fill_successors(c@.nodes);
    let mut nodes: Vec<Node> = Vec::new();
    let mut m: usize = 0;
    while m < c.nodes.len()
        invariant
            m <= c.nodes.len(),
            nodes.len() == m,
            filled == fill_successors(c@.nodes),
            forall|j: int| 0 <= j < m ==> nodes@[j]@ == filled[j],
        decreases c.nodes.len() - m,
    {
        let cn = &c.nodes[m];
        let mut outputs: Vec<OutputSlot> = Vec::new();
        let mut t: usize = 0;
        while t < cn.outputs.len()
            invariant
                t <= cn.outputs.len(),
                outputs.len() == t,
                cn == &c.nodes[m as int],
                m < c.nodes.len(),
                forall|t2: int|
                    0 <= t2 < t ==> outputs@[t2]@ == (SlotModel {
                        fact: c@.nodes[m as int].outputs[t2].fact,
                        successors: successors_spec(
                            inputs_of(c@.nodes),
                            Outlet { node: m as usize, slot: t2 as usize },
                        ),
                    }),
            decreases cn.outputs.len() - t,
        {
            let succ = computed_successors(&c.nodes, Outlet { node: m, slot: t });
            let slot = OutputSlot { fact: cn.outputs[t].fact.duplicate(), successors: succ };
            proof {
                assert(slot@ =~= (SlotModel {
                    fact: c@.nodes[m as int].outputs[t as int].fact,
                    successors: successors_spec(
                        inputs_of(c@.nodes),
                        Outlet { node: m as usize, slot: t as usize },
                    ),
                }));
            }
            outputs.push(slot);
            t += 1;
        }
        let node = Node {
            id: cn.id,
            name: cn.name.clone(),
            op: cn.op.duplicate(),
            inputs: crate::graph::clone_outlets(&cn.inputs),
            outputs,
        };
        proof {
            assert(node@.outputs =~= filled[m as int].outputs);
            assert(node@ =~= filled[m as int]);
        }
        nodes.push(node);
        m += 1;
    }
    let r = Graph {
        nodes,
        inputs: crate::graph::clone_outlets(&c.inputs),
        outputs: crate::graph::clone_outlets(&c.outputs),
    };
    proof {
        assert(r@.nodes =~= filled);
        assert(r@ =~= reindexed(c@));
    }
    r
}


/// A validated candidate is well formed: the checks in `Patch::apply` are
/// exactly what the graph invariant needs.
proof fn lemma_candidate_wf(g: GraphModel, p: PatchModel, pre: Graph)
    requires
        g.wf(),
        pre@.nodes == pre_nodes(g, p),
        pre@.inputs == g.inputs,
        pre@.outputs == g.outputs.map_values(|o: Outlet| resolve_shunt(g, p, o)),
        forall|j: int| 0 <= j < p.nodes.len() ==> !((#[trigger] p.nodes[j]).op is Removed),
        g.nodes.len() + p.nodes.len() <= usize::MAX,
        !has_bad_ref(candidate(g, p)),
        !has_name_clash(candidate(g, p)),
        candidate(g, p).acyclic(),
    ensures
        candidate(g, p).wf(),
{
    let c = candidate(g, p);
    let pn = pre_nodes(g, p);
    let ins = inputs_of(pn);
    assert(c == reindexed(pre@));
    lemma_reindex_preserves(pre@);
    assert(inputs_of(c.nodes) =~= ins);

    // Bounds on every input list, needed by the successor-index lemma.
    assert forall|n: int| 0 <= n < ins.len() implies (#[trigger] ins[n]).len() <= usize::MAX by {
        assert(ins[n] == pre@.nodes[n].inputs);
        assert(pre@.nodes[n].inputs == pre.nodes@[n].inputs@);
        assert(pre.nodes@[n].inputs.len() == pre.nodes@[n].inputs@.len());
    }

    // Arena facts: every candidate node mirrors its pre-node.
    assert forall|n: int| 0 <= n < c.nodes.len() implies {
        let a = #[trigger] c.nodes[n];
        let b = pn[n];
        a.id == b.id && a.name == b.name && a.op == b.op && a.inputs == b.inputs
            && a.outputs.len() == b.outputs.len()
    } by {
        assert(c.nodes[n] == reindexed(pre@).nodes[n]);
        assert(pre@.nodes[n] == pn[n]);
    }

    // ids.
    assert(c.ids_ok());

    // inputs: exactly the first disjunct of the reference check.
    assert forall|n: int, k: int|
        c.live(n) && 0 <= k < c.nodes[n].inputs.len() implies c.valid_outlet(
        #[trigger] c.nodes[n].inputs[k],
    ) by {
        if !c.valid_outlet(c.nodes[n].inputs[k]) {
            assert(has_bad_ref(c));
        }
    }
    assert(c.inputs_ok());

    // tombstones are inert.
    assert forall|n: int|
        0 <= n < c.nodes.len() && c.nodes[n].op is Removed implies ((#[trigger] c.nodes[n]).inputs.len()
        == 0 && c.nodes[n].outputs.len() == 0) by {
        if n < g.nodes.len() {
            if !p.dels.contains(n as usize) {
                assert(g.nodes[n].op is Removed);
                assert(g.removed_ok());
                assert(g.nodes[n].inputs.len() == 0 && g.nodes[n].outputs.len() == 0);
                assert(pn[n].inputs.len() == 0 && pn[n].outputs.len() == 0);
            }
        } else {
            assert(pn[n].op == p.nodes[n - g.nodes.len()].op);
            assert(!(pn[n].op is Removed));
        }
    }
    assert(c.removed_ok());

    // the successor index is exactly the mirror of the input lists.
    assert forall|m: int, s: int|
        0 <= m < c.nodes.len() && 0 <= s < c.nodes[m].outputs.len() implies (
    #[trigger] c.nodes[m].outputs[s]).successors == successors_spec(
        ins,
        Outlet { node: m as usize, slot: s as usize },
    ) by {
        assert(c.nodes[m] == fill_successors(pn)[m]);
    }
    assert forall|n: int, k: int|
        c.live(n) && 0 <= k < c.nodes[n].inputs.len() implies {
        let o = #[trigger] c.nodes[n].inputs[k];
        c.nodes[o.node as int].outputs[o.slot as int].successors.contains(
            Inlet { node: n as usize, slot: k as usize },
        )
    } by {
        let o = c.nodes[n].inputs[k];
        lemma_successors_spec(ins, o);
        assert(ins[n][k] == o);
        assert(c.valid_outlet(o));
        assert((Outlet { node: o.node, slot: o.slot }) == o);
        assert(c.nodes[o.node as int].outputs[o.slot as int].successors == successors_spec(ins, o));
    }
    assert forall|m: int, s: int, t: int|
        0 <= m < c.nodes.len() && 0 <= s < c.nodes[m].outputs.len() && 0 <= t < c.nodes[m].outputs[s].successors.len() implies {
        let inl = #[trigger] c.nodes[m].outputs[s].successors[t];
        &&& c.valid_inlet(inl)
        &&& c.nodes[inl.node as int].inputs[inl.slot as int] == (Outlet {
            node: m as usize,
            slot: s as usize,
        })
    } by {
        let o = Outlet { node: m as usize, slot: s as usize };
        lemma_successors_spec(ins, o);
        let inl = c.nodes[m].outputs[s].successors[t];
        assert(c.nodes[m].outputs[s].successors == successors_spec(ins, o));
        assert(ins[inl.node as int][inl.slot as int] == o);
        assert(c.nodes[inl.node as int].inputs == ins[inl.node as int]);
        // a node with an input slot cannot be a tombstone
        assert(!(c.nodes[inl.node as int].op is Removed));
    }
    assert forall|m: int, s: int, t1: int, t2: int|
        0 <= m < c.nodes.len() && 0 <= s < c.nodes[m].outputs.len() && 0 <= t1 < t2 < c.nodes[m].outputs[s].successors.len() implies (
    #[trigger] c.nodes[m].outputs[s].successors[t1]) != (
    #[trigger] c.nodes[m].outputs[s].successors[t2]) by {
        let o = Outlet { node: m as usize, slot: s as usize };
        lemma_successors_spec(ins, o);
        assert(c.nodes[m].outputs[s].successors == successors_spec(ins, o));
    }
    assert(c.backrefs_ok());

    // designated ports.
    assert forall|k: int| 0 <= k < c.inputs.len() implies c.valid_outlet(#[trigger] c.inputs[k])
        && c.nodes[c.inputs[k].node as int].op is Source by {
        if !c.valid_outlet(c.inputs[k]) {
            assert(has_bad_ref(c));
        }
        let o = c.inputs[k];
        assert(g.io_ok());
        assert(g.valid_outlet(g.inputs[k]));
        assert(o == g.inputs[k]);
        assert(g.nodes[o.node as int].op is Source);
        if p.dels.contains(o.node) {
            assert(pn[o.node as int].op is Removed);
            assert(c.nodes[o.node as int].op is Removed);
            assert(!c.valid_outlet(o));
        }
        assert(c.nodes[o.node as int].op == pn[o.node as int].op);
    }
    assert forall|k: int| 0 <= k < c.outputs.len() implies c.valid_outlet(
        #[trigger] c.outputs[k],
    ) by {
        if !c.valid_outlet(c.outputs[k]) {
            assert(has_bad_ref(c));
        }
    }
    assert(c.io_ok());

    // names.
    assert(c.names_ok());
}

impl Patch {
    /// Apply the patch to `g` in one atomic step.
    ///
    /// On success the graph becomes exactly the edited graph described by
    /// `candidate`. On failure the graph is untouched, and the error is the
    /// verdict `patch_error_of` names for this graph and patch: a stale
    /// reference, a dangling reader, a name clash, or a cycle. A patch adds
    /// real nodes only: the tombstone operation is the arena's own
    /// bookkeeping, written by deletion, never inserted.
    pub fn apply(&self, g: &mut Graph) -> (r: Result<(), PatchError>)
        requires
            old(g)@.wf(),
            forall|j: int|
                0 <= j < self@.nodes.len() ==> !((#[trigger] self@.nodes[j]).op is Removed),
            old(g)@.nodes.len() + self@.nodes.len() <= usize::MAX,
        ensures
            match r {
                Ok(()) => {
                    &&& patch_error_of(old(g)@, self@) is None
                    &&& final(g)@ == candidate(old(g)@, self@)
                    &&& final(g)@.wf()
                },
                Err(e) => {
                    &&& final(g)@ == old(g)@
                    &&& patch_error_of(old(g)@, self@) == Some(e)
                },
            },
    {
        if check_stale(g, self) {
            return Err(PatchError::StaleOutlet);
        }
        if check_srcs(self) {
            return Err(PatchError::DanglingInlet);
        }
        let pre = build_pre(g, self);
        proof {
            lemma_reindex_preserves(pre@);
            assert(candidate(g@, self@) == reindexed(pre@));
        }
        if check_refs(&pre) {
            return Err(PatchError::DanglingInlet);
        }
        if check_names(&pre) {
            return Err(PatchError::DuplicateName);
        }
        proof {
            // the reference check covers everything the scheduler needs.
            assert(pre@.inputs_ok());
            assert forall|n: int|
                0 <= n < pre@.nodes.len() && pre@.nodes[n].op is Removed implies ((
            #[trigger] pre@.nodes[n]).inputs.len() == 0 && pre@.nodes[n].outputs.len() == 0) by {
                let pn = pre_nodes(g@, self@);
                assert(pre@.nodes[n] == pn[n]);
                if n < g@.nodes.len() && !self@.dels.contains(n as usize) {
                    assert(g@.nodes[n].op is Removed);
                    assert(g@.removed_ok());
                }
                if n >= g@.nodes.len() {
                    assert(pn[n].op == self@.nodes[n - g@.nodes.len()].op);
                }
            }
            assert(pre@.removed_ok());
        }
        match toposort(&pre) {
            None => {
                proof {
                    assert(!candidate(g@, self@).acyclic());
                }
                Err(PatchError::Cycle)
            },
            Some(ranks) => {
                proof {
                    assert(pre@.respects_ranks(nat_ranks(ranks@)));
                    assert(pre@.acyclic());
                    assert(candidate(g@, self@).acyclic());
                    lemma_candidate_wf(g@, self@, pre);
                }
                let fin = reindex(&pre);
                *g = fin;
                Ok(())
            },
        }
    }
}

} // verus!




