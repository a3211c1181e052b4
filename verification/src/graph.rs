//! The mutable directed graph of operations.
//!
//! A graph owns its nodes in an arena indexed by node id; edges are plain
//! (node id, slot) pairs. An outlet is an output slot of a node, an inlet an
//! input slot. Each output slot keeps the list of inlets that read it: a
//! non-owning back-reference index, kept consistent with the nodes' `inputs`
//! lists at all times. Deleted nodes stay in the arena as inert tombstones so
//! that node ids remain stable.

use vstd::prelude::*;

use crate::fact::{clone_dims, clone_usizes, Fact, FactModel, Tensor, TensorModel};

verus! {

/// An output slot of a node: (node id, output index).
#[derive(Clone, Copy, PartialEq, Eq, Structural, Debug)]
pub struct Outlet {
    pub node: usize,
    pub slot: usize,
}

/// An input slot of a node: (node id, input index).
#[derive(Clone, Copy, PartialEq, Eq, Structural, Debug)]
pub struct Inlet {
    pub node: usize,
    pub slot: usize,
}

/// The operations of the shared operation library. The set is closed: every
/// stage knows how to type, rewrite and evaluate exactly these.
pub enum Op {
    /// A designated graph input.
    Source,
    /// A constant tensor.
    Const(Tensor),
    /// The identity operation; decluttering elides it.
    Identity,
    /// Adds a constant to every element.
    AddConst(i64),
    /// Multiplies every element by a constant.
    MulConst(i64),
    /// The canonical fused affine map `x * mul + add`, element-wise.
    Affine { mul: i64, add: i64 },
    /// Sum of the last `window` elements along the streaming axis, with
    /// zeroes read before the start of the stream.
    SlidingSum { window: usize },
    /// The pulsed form of `SlidingSum`: consumes fixed-size windows and
    /// carries the last `window - 1` elements over as run-time state.
    PulsedSlidingSum { window: usize },
    /// An optimizer-selected concrete strategy for `Affine`; it only ever
    /// appears after the optimize stage.
    LinearKernel { mul: i64, add: i64 },
    /// Tombstone of a deleted node.
    Removed,
}

/// Mathematical model of an operation.
pub ghost enum OpModel {
    Source,
    Const(TensorModel),
    Identity,
    AddConst(i64),
    MulConst(i64),
    Affine { mul: i64, add: i64 },
    SlidingSum { window: usize },
    PulsedSlidingSum { window: usize },
    LinearKernel { mul: i64, add: i64 },
    Removed,
}

impl View for Op {
    type V = OpModel;

    open spec fn view(&self) -> OpModel {
        match self {
            Op::Source => OpModel::Source,
            Op::Const(t) => OpModel::Const(t@),
            Op::Identity => OpModel::Identity,
            Op::AddConst(c) => OpModel::AddConst(*c),
            Op::MulConst(c) => OpModel::MulConst(*c),
            Op::Affine { mul, add } => (OpModel::Affine { mul: *mul, add: *add }),
            Op::SlidingSum { window } => (OpModel::SlidingSum { window: *window }),
            Op::PulsedSlidingSum { window } => (OpModel::PulsedSlidingSum { window: *window }),
            Op::LinearKernel { mul, add } => (OpModel::LinearKernel { mul: *mul, add: *add }),
            Op::Removed => OpModel::Removed,
        }
    }
}

impl Op {
    /// A deep copy of the operation.
    pub fn duplicate(&self) -> (r: Op)
        ensures
            r@ == self@,
    {
        match self {
            Op::Source => Op::Source,
            Op::Const(t) => Op::Const(t.duplicate()),
            Op::Identity => Op::Identity,
            Op::AddConst(c) => Op::AddConst(*c),
            Op::MulConst(c) => Op::MulConst(*c),
            Op::Affine { mul, add } => (Op::Affine { mul: *mul, add: *add }),
            Op::SlidingSum { window } => (Op::SlidingSum { window: *window }),
            Op::PulsedSlidingSum { window } => (Op::PulsedSlidingSum { window: *window }),
            Op::LinearKernel { mul, add } => (Op::LinearKernel { mul: *mul, add: *add }),
            Op::Removed => Op::Removed,
        }
    }

    /// Structural equality of operations.
    pub fn same(&self, other: &Op) -> (r: bool)
        ensures
            r == (self@ == other@),
    {
        match (self, other) {
            (Op::Source, Op::Source) => true,
            (Op::Const(a), Op::Const(b)) => a.same(b),
            (Op::Identity, Op::Identity) => true,
            (Op::AddConst(a), Op::AddConst(b)) => *a == *b,
            (Op::MulConst(a), Op::MulConst(b)) => *a == *b,
            (Op::Affine { mul: m1, add: a1 }, Op::Affine { mul: m2, add: a2 }) => {
                *m1 == *m2 && *a1 == *a2
            },
            (Op::SlidingSum { window: w1 }, Op::SlidingSum { window: w2 }) => *w1 == *w2,
            (Op::PulsedSlidingSum { window: w1 }, Op::PulsedSlidingSum { window: w2 }) => {
                *w1 == *w2
            },
            (Op::LinearKernel { mul: m1, add: a1 }, Op::LinearKernel { mul: m2, add: a2 }) => {
                *m1 == *m2 && *a1 == *a2
            },
            (Op::Removed, Op::Removed) => true,
            _ => false,
        }
    }
}

/// An output slot: the fact describing the edge, and the non-owning list of
/// inlets that read it.
pub struct OutputSlot {
    pub fact: Fact,
    pub successors: Vec<Inlet>,
}

/// Mathematical model of an output slot.
#[verifier::ext_equal]
pub ghost struct SlotModel {
    pub fact: FactModel,
    pub successors: Seq<Inlet>,
}

impl View for OutputSlot {
    type V = SlotModel;

    open spec fn view(&self) -> SlotModel {
        SlotModel { fact: self.fact@, successors: self.successors@ }
    }
}

/// A node of the graph.
pub struct Node {
    pub id: usize,
    pub name: String,
    pub op: Op,
    pub inputs: Vec<Outlet>,
    pub outputs: Vec<OutputSlot>,
}

/// Mathematical model of a node.
#[verifier::ext_equal]
pub ghost struct NodeModel {
    pub id: usize,
    pub name: Seq<char>,
    pub op: OpModel,
    pub inputs: Seq<Outlet>,
    pub outputs: Seq<SlotModel>,
}

impl View for Node {
    type V = NodeModel;

    open spec fn view(&self) -> NodeModel {
        NodeModel {
            id: self.id,
            name: self.name@,
            op: self.op@,
            inputs: self.inputs@,
            outputs: self.outputs@.map_values(|s: OutputSlot| s@),
        }
    }
}

/// The graph: an arena of nodes plus the ordered designated inputs and
/// outputs.
pub struct Graph {
    pub nodes: Vec<Node>,
    pub inputs: Vec<Outlet>,
    pub outputs: Vec<Outlet>,
}

/// Mathematical model of a graph.
#[verifier::ext_equal]
pub ghost struct GraphModel {
    pub nodes: Seq<NodeModel>,
    pub inputs: Seq<Outlet>,
    pub outputs: Seq<Outlet>,
}

impl View for Graph {
    type V = GraphModel;

    open spec fn view(&self) -> GraphModel {
        GraphModel {
            nodes: self.nodes@.map_values(|n: Node| n@),
            inputs: self.inputs@,
            outputs: self.outputs@,
        }
    }
}

impl GraphModel {
    /// The node is inside the arena and not a tombstone.
    pub open spec fn live(self, n: int) -> bool {
        0 <= n < self.nodes.len() && !(self.nodes[n].op is Removed)
    }

    /// The outlet names an existing output slot of a live node.
    pub open spec fn valid_outlet(self, o: Outlet) -> bool {
        self.live(o.node as int) && o.slot < self.nodes[o.node as int].outputs.len()
    }

    /// The inlet names an existing input slot of a live node.
    pub open spec fn valid_inlet(self, i: Inlet) -> bool {
        self.live(i.node as int) && i.slot < self.nodes[i.node as int].inputs.len()
    }

    /// Node `m` feeds node `n` through some input slot.
    pub open spec fn edge(self, m: int, n: int) -> bool {
        &&& 0 <= n < self.nodes.len()
        &&& exists|k: int|
            0 <= k < self.nodes[n].inputs.len() && self.nodes[n].inputs[k].node == m
    }

    /// Every edge climbs strictly in rank: a witness that the graph is a DAG.
    pub open spec fn respects_ranks(self, r: Seq<nat>) -> bool {
        &&& r.len() == self.nodes.len()
        &&& forall|m: int, n: int|
            0 <= m < self.nodes.len() && 0 <= n < self.nodes.len() && self.edge(m, n)
                ==> r[m] < r[n]
    }

    /// The graph has no directed cycle.
    pub open spec fn acyclic(self) -> bool {
        exists|r: Seq<nat>| self.respects_ranks(r)
    }

    /// A non-empty set of live nodes each of which is fed by another member
    /// of the set. Such a set can never be scheduled, and exists exactly when
    /// the graph has a cycle.
    pub open spec fn stuck_set(self, s: Set<int>) -> bool {
        &&& s.finite()
        &&& !s.is_empty()
        &&& forall|n: int| s.contains(n) ==> 0 <= n < self.nodes.len()
        &&& forall|n: int|
            s.contains(n) ==> exists|k: int|
                0 <= k < self.nodes[n].inputs.len() && s.contains(
                    self.nodes[n].inputs[k].node as int,
                )
    }

    /// Node ids equal arena indices.
    pub open spec fn ids_ok(self) -> bool {
        forall|i: int| 0 <= i < self.nodes.len() ==> self.nodes[i].id == i
    }

    /// Every input of a live node is a valid outlet.
    pub open spec fn inputs_ok(self) -> bool {
        forall|n: int, k: int|
            self.live(n) && 0 <= k < self.nodes[n].inputs.len() ==> self.valid_outlet(
                #[trigger] self.nodes[n].inputs[k],
            )
    }

    /// The successor lists mirror the `inputs` lists exactly, in both
    /// directions, without duplicates.
    pub open spec fn backrefs_ok(self) -> bool {
        &&& forall|n: int, k: int|
            self.live(n) && 0 <= k < self.nodes[n].inputs.len() ==> {
                let o = #[trigger] self.nodes[n].inputs[k];
                self.nodes[o.node as int].outputs[o.slot as int].successors.contains(
                    Inlet { node: n as usize, slot: k as usize },
                )
            }
        &&& forall|m: int, s: int, t: int|
            0 <= m < self.nodes.len() && 0 <= s < self.nodes[m].outputs.len() && 0 <= t
                < self.nodes[m].outputs[s].successors.len() ==> {
                let inl = #[trigger] self.nodes[m].outputs[s].successors[t];
                &&& self.valid_inlet(inl)
                &&& self.nodes[inl.node as int].inputs[inl.slot as int] == (Outlet {
                    node: m as usize,
                    slot: s as usize,
                })
            }
        &&& forall|m: int, s: int, t1: int, t2: int|
            0 <= m < self.nodes.len() && 0 <= s < self.nodes[m].outputs.len() && 0 <= t1 < t2
                < self.nodes[m].outputs[s].successors.len()
                ==> #[trigger] self.nodes[m].outputs[s].successors[t1]
                != #[trigger] self.nodes[m].outputs[s].successors[t2]
    }

    /// Tombstones are inert: no inputs, no outputs.
    pub open spec fn removed_ok(self) -> bool {
        forall|n: int|
            0 <= n < self.nodes.len() && self.nodes[n].op is Removed ==> {
                &&& (#[trigger] self.nodes[n]).inputs.len() == 0
                &&& self.nodes[n].outputs.len() == 0
            }
    }

    /// The designated inputs are valid outlets of source nodes; the
    /// designated outputs are valid outlets.
    pub open spec fn io_ok(self) -> bool {
        &&& forall|k: int|
            0 <= k < self.inputs.len() ==> self.valid_outlet(#[trigger] self.inputs[k])
                && self.nodes[self.inputs[k].node as int].op is Source
        &&& forall|k: int| 0 <= k < self.outputs.len() ==> self.valid_outlet(#[trigger] self.outputs[k])
    }

    /// Names are unique among live nodes.
    pub open spec fn names_ok(self) -> bool {
        forall|m: int, n: int|
            self.live(m) && self.live(n) && m != n ==> self.nodes[m].name != self.nodes[n].name
    }

    /// The graph invariant: a consistent DAG with stable ids, mirrored
    /// back-references, inert tombstones, valid designated ports and unique
    /// names.
    pub open spec fn wf(self) -> bool {
        &&& self.ids_ok()
        &&& self.inputs_ok()
        &&& self.backrefs_ok()
        &&& self.removed_ok()
        &&& self.io_ok()
        &&& self.names_ok()
        &&& self.acyclic()
    }
}

/// A copy of an outlet vector.
pub fn clone_outlets(v: &Vec<Outlet>) -> (r: Vec<Outlet>)
    ensures
        r@ == v@,
{
    let mut r: Vec<Outlet> = Vec::new();
    let mut i: usize = 0;
    while i < v.len()
        invariant
            i <= v.len(),
            r@ =~= v@.take(i as int),
        decreases v.len() - i,
    {
        r.push(v[i]);
        i += 1;
    }
    assert(r@ =~= v@);
    r
}

/// A copy of an inlet vector.
pub fn clone_inlets(v: &Vec<Inlet>) -> (r: Vec<Inlet>)
    ensures
        r@ == v@,
{
    let mut r: Vec<Inlet> = Vec::new();
    let mut i: usize = 0;
    while i < v.len()
        invariant
            i <= v.len(),
            r@ =~= v@.take(i as int),
        decreases v.len() - i,
    {
        r.push(v[i]);
        i += 1;
    }
    assert(r@ =~= v@);
    r
}

/// Element-wise equality of two outlet vectors.
pub fn eq_outlets(a: &Vec<Outlet>, b: &Vec<Outlet>) -> (r: bool)
    ensures
        r == (a@ =~= b@),
{
    if a.len() != b.len() {
        return false;
    }
    let mut i: usize = 0;
    while i < a.len()
        invariant
            i <= a.len(),
            a.len() == b.len(),
            forall|j: int| 0 <= j < i ==> a@[j] == b@[j],
        decreases a.len() - i,
    {
        if !(a[i] == b[i]) {
            return false;
        }
        i += 1;
    }
    true
}

/// Element-wise equality of two inlet vectors.
pub fn eq_inlets(a: &Vec<Inlet>, b: &Vec<Inlet>) -> (r: bool)
    ensures
        r == (a@ =~= b@),
{
    if a.len() != b.len() {
        return false;
    }
    let mut i: usize = 0;
    while i < a.len()
        invariant
            i <= a.len(),
            a.len() == b.len(),
            forall|j: int| 0 <= j < i ==> a@[j] == b@[j],
        decreases a.len() - i,
    {
        if !(a[i] == b[i]) {
            return false;
        }
        i += 1;
    }
    true
}

impl OutputSlot {
    /// A deep copy of the slot.
    pub fn duplicate(&self) -> (r: OutputSlot)
        ensures
            r@ == self@,
    {
        let r = OutputSlot { fact: self.fact.duplicate(), successors: clone_inlets(&self.successors) };
        assert(r@ =~= self@);
        r
    }

    /// Structural equality of slots.
    pub fn same(&self, other: &OutputSlot) -> (r: bool)
        ensures
            r == (self@ =~= other@),
    {
        self.fact.same(&other.fact) && eq_inlets(&self.successors, &other.successors)
    }
}

impl Node {
    /// A deep copy of the node.
    pub fn duplicate(&self) -> (r: Node)
        ensures
            r@ == self@,
    {
        let mut outputs: Vec<OutputSlot> = Vec::new();
        let mut i: usize = 0;
        while i < self.outputs.len()
            invariant
                i <= self.outputs.len(),
                outputs.len() == i,
                forall|j: int| 0 <= j < i ==> outputs@[j]@ == self.outputs@[j]@,
            decreases self.outputs.len() - i,
        {
            outputs.push(self.outputs[i].duplicate());
            i += 1;
        }
        let r = Node {
            id: self.id,
            name: self.name.clone(),
            op: self.op.duplicate(),
            inputs: clone_outlets(&self.inputs),
            outputs,
        };
        assert(r@.outputs =~= self@.outputs);
        assert(r@ =~= self@);
        r
    }

    /// Structural equality of nodes.
    pub fn same(&self, other: &Node) -> (r: bool)
        ensures
            r == (self@ =~~= other@),
    {
        if self.id != other.id {
            return false;
        }
        if !(self.name == other.name) {
            return false;
        }
        if !self.op.same(&other.op) {
            return false;
        }
        if !eq_outlets(&self.inputs, &other.inputs) {
            return false;
        }
        if self.outputs.len() != other.outputs.len() {
            proof {
                assert(self@.outputs.len() != other@.outputs.len());
            }
            return false;
        }
        let mut i: usize = 0;
        while i < self.outputs.len()
            invariant
                i <= self.outputs.len(),
                self.outputs.len() == other.outputs.len(),
                self@.name == other@.name,
                self@.id == other@.id,
                self@.op == other@.op,
                self@.inputs == other@.inputs,
                forall|j: int| 0 <= j < i ==> self@.outputs[j] == other@.outputs[j],
            decreases self.outputs.len() - i,
        {
            if !self.outputs[i].same(&other.outputs[i]) {
                proof {
                    assert(self@.outputs[i as int] != other@.outputs[i as int]);
                }
                return false;
            }
            i += 1;
        }
        proof {
            assert(self@.outputs =~= other@.outputs);
            assert(self@ =~~= other@);
        }
        true
    }
}

impl Graph {
    /// An empty graph.
    pub fn empty() -> (r: Graph)
        ensures
            r@.nodes.len() == 0,
            r@.inputs.len() == 0,
            r@.outputs.len() == 0,
            r@.wf(),
    {
        let r = Graph { nodes: Vec::new(), inputs: Vec::new(), outputs: Vec::new() };
        proof {
            let ranks: Seq<nat> = Seq::empty();
            assert(r@.respects_ranks(ranks));
        }
        r
    }

    /// A deep copy of the graph.
    pub fn duplicate(&self) -> (r: Graph)
        ensures
            r@ == self@,
    {
        let mut nodes: Vec<Node> = Vec::new();
        let mut i: usize = 0;
        while i < self.nodes.len()
            invariant
                i <= self.nodes.len(),
                nodes.len() == i,
                forall|j: int| 0 <= j < i ==> nodes@[j]@ == self.nodes@[j]@,
            decreases self.nodes.len() - i,
        {
            nodes.push(self.nodes[i].duplicate());
            i += 1;
        }
        let r = Graph {
            nodes,
            inputs: clone_outlets(&self.inputs),
            outputs: clone_outlets(&self.outputs),
        };
        assert(r@.nodes =~= self@.nodes);
        assert(r@ =~= self@);
        r
    }

    /// Structural equality of graphs.
    pub fn same(&self, other: &Graph) -> (r: bool)
        ensures
            r == (self@ =~~= other@),
    {
        if !eq_outlets(&self.inputs, &other.inputs) {
            return false;
        }
        if !eq_outlets(&self.outputs, &other.outputs) {
            return false;
        }
        if self.nodes.len() != other.nodes.len() {
            proof {
                assert(self@.nodes.len() != other@.nodes.len());
            }
            return false;
        }
        let mut i: usize = 0;
        while i < self.nodes.len()
            invariant
                i <= self.nodes.len(),
                self.nodes.len() == other.nodes.len(),
                self@.inputs == other@.inputs,
                self@.outputs == other@.outputs,
                forall|j: int| 0 <= j < i ==> self@.nodes[j] =~~= other@.nodes[j],
            decreases self.nodes.len() - i,
        {
            if !self.nodes[i].same(&other.nodes[i]) {
                proof {
                    assert(self@.nodes[i as int] != other@.nodes[i as int]);
                }
                return false;
            }
            i += 1;
        }
        proof {
            assert(self@.nodes =~~= other@.nodes);
            assert(self@ =~~= other@);
        }
        true
    }
}

} // verus!
