//! Type lowering, stream-dimension concretization, and the pulse transform.
//!
//! A typed graph has every fact's type and shape known; only the streaming
//! dimension may remain symbolic. Concretization substitutes a fixed length
//! for it; pulsing rewrites the stream-dependent operations into their
//! windowed, state-carrying forms and binds the streaming axis to the pulse
//! length.

use vstd::prelude::*;

use crate::analyse::{facts_wf, ops_wf, sem_wf};
use crate::fact::{Dim, Fact, FactModel, fixed_dims};
use crate::graph::{Graph, GraphModel, Inlet, Node, NodeModel, Op, OpModel, Outlet, OutputSlot, SlotModel};

verus! {

/// Why a lowering stage refused a graph. The graph is returned unchanged by
/// the driver from its snapshot.
#[derive(Clone, Copy, PartialEq, Eq, Structural, Debug)]
pub enum StreamError {
    /// The stage requires a fully determined fact, and this slot's fact is
    /// still partial (or still streaming, for the pulse-to-typed boundary).
    UnresolvedShape { node: usize, slot: usize },
    /// The node's operation cannot cross this stage (it is already pulsed).
    Unsupported { node: usize },
    /// The pulse length must be positive.
    InvalidPulse,
}

/// Every fact of the graph knows its type and shape (symbolic stream
/// dimensions allowed): the guarantee of a typed graph.
pub open spec fn graph_typed(g: GraphModel) -> bool {
    forall|n: int, s: int|
        0 <= n < g.nodes.len() && 0 <= s < g.nodes[n].outputs.len() ==> (
        #[trigger] g.nodes[n].outputs[s]).fact.typed()
}

/// Every fact is fully concrete, with no symbolic dimension left: the
/// guarantee of an optimizable or pulsed graph.
pub open spec fn graph_concrete(g: GraphModel) -> bool {
    forall|n: int, s: int|
        0 <= n < g.nodes.len() && 0 <= s < g.nodes[n].outputs.len() ==> (
        #[trigger] g.nodes[n].outputs[s]).fact.concrete()
}

/// The first slot whose fact fails `typed` (respectively `concrete`), in
/// (node, slot) order.
pub open spec fn first_untyped(g: GraphModel, concrete: bool, n: int, s: int) -> Option<(int, int)>
    decreases g.nodes.len() - n, g.nodes[n].outputs.len() - s,
{
    if n < 0 || s < 0 || n >= g.nodes.len() {
        None
    } else if s >= g.nodes[n].outputs.len() {
        first_untyped(g, concrete, n + 1, 0)
    } else if (if concrete {
        !g.nodes[n].outputs[s].fact.concrete()
    } else {
        !g.nodes[n].outputs[s].fact.typed()
    }) {
        Some((n, s))
    } else {
        first_untyped(g, concrete, n, s + 1)
    }
}

/// Check a whole graph against `typed` (or `concrete`), reporting the first
/// offending slot.
fn check_facts(g: &Graph, concrete: bool) -> (r: Option<(usize, usize)>)
    ensures
        match r {
            Some((n, s)) => first_untyped(g@, concrete, 0, 0) == Some((n as int, s as int)),
            None => first_untyped(g@, concrete, 0, 0) is None,
        },
{
    let mut n: usize = 0;
    while n < g.nodes.len()
        invariant
            n <= g.nodes.len(),
            first_untyped(g@, concrete, 0, 0) == first_untyped(g@, concrete, n as int, 0),
        decreases g.nodes.len() - n,
    {
        let node = &g.nodes[n];
        let mut s: usize = 0;
        while s < node.outputs.len()
            invariant
                s <= node.outputs.len(),
                n < g.nodes.len(),
                node == &g.nodes[n as int],
                first_untyped(g@, concrete, 0, 0) == first_untyped(g@, concrete, n as int, s as int),
            decreases node.outputs.len() - s,
        {
            let f = &node.outputs[s].fact;
            let ok = if concrete {
                crate::rewrite::fact_concrete_exec(f)
            } else {
                f.dt.is_some() && f.shape.is_some()
            };
            proof {
                assert(g@.nodes[n as int].outputs[s as int].fact == f@);
            }
            if !ok {
                return Some((n, s));
            }
            s += 1;
        }
        n += 1;
    }
    None
}

/// Lower a graph to its typed form: the identity on graphs whose facts are
/// all typed, and an `UnresolvedShape` error naming the first offending slot
/// otherwise.
pub fn into_typed(g: Graph) -> (r: Result<Graph, StreamError>)
    ensures
        match r {
            Ok(h) => {
                &&& h@ == g@
                &&& graph_typed(h@)
                &&& first_untyped(g@, false, 0, 0) is None
            },
            Err(e) => {
                &&& first_untyped(g@, false, 0, 0) matches Some((n, s)) && e == (
                StreamError::UnresolvedShape { node: n as usize, slot: s as usize })
            },
        },
{
    match check_facts(&g, false) {
        Some((n, s)) => Err(StreamError::UnresolvedShape { node: n, slot: s }),
        None => {
            proof {
                lemma_first_untyped_none(g@, false, 0, 0);
            }
            Ok(g)
        },
    }
}

/// Validate a pulsed graph back into the typed world: the identity on graphs
/// whose facts are all concrete (the pulse transform has bound every
/// streaming dimension).
pub fn pulse_to_typed(g: Graph) -> (r: Result<Graph, StreamError>)
    ensures
        match r {
            Ok(h) => {
                &&& h@ == g@
                &&& graph_concrete(h@)
                &&& first_untyped(g@, true, 0, 0) is None
            },
            Err(e) => {
                &&& first_untyped(g@, true, 0, 0) matches Some((n, s)) && e == (
                StreamError::UnresolvedShape { node: n as usize, slot: s as usize })
            },
        },
{
    match check_facts(&g, true) {
        Some((n, s)) => Err(StreamError::UnresolvedShape { node: n, slot: s }),
        None => {
            proof {
                lemma_first_untyped_none(g@, true, 0, 0);
            }
            Ok(g)
        },
    }
}

/// A clean scan implies the property everywhere past the scan point.
proof fn lemma_first_untyped_none(g: GraphModel, concrete: bool, n: int, s: int)
    requires
        first_untyped(g, concrete, n, s) is None,
        0 <= n,
        0 <= s,
    ensures
        forall|n2: int, s2: int|
            0 <= n2 < g.nodes.len() && 0 <= s2 < g.nodes[n2].outputs.len() && (n2 > n || (n2 == n
                && s2 >= s)) ==> (if concrete {
                (#[trigger] g.nodes[n2].outputs[s2]).fact.concrete()
            } else {
                (#[trigger] g.nodes[n2].outputs[s2]).fact.typed()
            }),
    decreases g.nodes.len() - n, g.nodes[n].outputs.len() - s,
{
    if n < g.nodes.len() {
        if s >= g.nodes[n].outputs.len() {
            lemma_first_untyped_none(g, concrete, n + 1, 0);
        } else {
            lemma_first_untyped_none(g, concrete, n, s + 1);
        }
    }
}

/// One dimension with the streaming symbol bound to `v`.
pub open spec fn subst_dim(d: Dim, v: usize) -> Dim {
    match d {
        Dim::Stream => Dim::Fixed(v),
        Dim::Fixed(x) => Dim::Fixed(x),
    }
}

/// One fact with the streaming symbol bound to `v`.
pub open spec fn subst_fact(f: FactModel, v: usize) -> FactModel {
    FactModel {
        dt: f.dt,
        shape: match f.shape {
            Some(s) => Some(s.map_values(|d: Dim| subst_dim(d, v))),
            None => None,
        },
        value: f.value,
    }
}

/// The operation in its pulsed form: stream-extent operations become their
/// window-and-state counterparts, everything element-wise passes through.
pub open spec fn pulse_op(op: OpModel) -> OpModel {
    match op {
        OpModel::SlidingSum { window } => (OpModel::PulsedSlidingSum { window }),
        x => x,
    }
}

/// The graph with every fact's streaming dimension bound to `v`, and (when
/// `pulse` is set) every stream-extent operation rewritten to its pulsed
/// form.
pub open spec fn subst_graph(g: GraphModel, v: usize, pulse: bool) -> GraphModel {
    GraphModel {
        nodes: g.nodes.map_values(
            |nn: NodeModel|
                NodeModel {
                    id: nn.id,
                    name: nn.name,
                    op: if pulse {
                        pulse_op(nn.op)
                    } else {
                        nn.op
                    },
                    inputs: nn.inputs,
                    outputs: nn.outputs.map_values(
                        |sl: SlotModel|
                            SlotModel { fact: subst_fact(sl.fact, v), successors: sl.successors },
                    ),
                },
        ),
        inputs: g.inputs,
        outputs: g.outputs,
    }
}

/// Binding the streaming dimension (and optionally pulsing the operations)
/// keeps the graph invariant and the semantic invariant.
proof fn lemma_subst_wf(g: GraphModel, v: usize, pulse: bool)
    requires
        g.wf(),
        sem_wf(g),
    ensures
        subst_graph(g, v, pulse).wf(),
        sem_wf(subst_graph(g, v, pulse)),
{
    let c = subst_graph(g, v, pulse);
    assert(c.nodes.len() == g.nodes.len());
    assert forall|n: int| 0 <= n < g.nodes.len() implies {
        let a = #[trigger] c.nodes[n];
        let b = g.nodes[n];
        &&& a.id == b.id
        &&& a.name == b.name
        &&& a.inputs == b.inputs
        &&& a.outputs.len() == b.outputs.len()
        &&& (a.op is Removed <==> b.op is Removed)
        &&& (a.op is Source <==> b.op is Source)
        &&& (a.op matches OpModel::Const(t) <==> b.op matches OpModel::Const(t))
    } by {}
    assert forall|n: int, s: int|
        0 <= n < g.nodes.len() && 0 <= s < g.nodes[n].outputs.len() implies (
    #[trigger] c.nodes[n].outputs[s]).successors == g.nodes[n].outputs[s].successors by {}
    assert forall|n: int| #[trigger] c.live(n) == g.live(n) by {
        if 0 <= n < g.nodes.len() {
            assert(c.nodes[n].op is Removed <==> g.nodes[n].op is Removed);
        }
    }
    assert forall|o: Outlet| #[trigger] c.valid_outlet(o) == g.valid_outlet(o) by {
        if 0 <= o.node < g.nodes.len() {
            assert(c.nodes[o.node as int].outputs.len() == g.nodes[o.node as int].outputs.len());
        }
    }
    assert(c.ids_ok()) by {
        assert forall|n: int| 0 <= n < c.nodes.len() implies (#[trigger] c.nodes[n]).id == n by {
            assert(g.nodes[n].id == n);
        }
    }
    assert(c.inputs_ok()) by {
        assert forall|n: int, k: int|
            c.live(n) && 0 <= k < c.nodes[n].inputs.len() implies c.valid_outlet(
            #[trigger] c.nodes[n].inputs[k],
        ) by {
            assert(c.nodes[n].inputs == g.nodes[n].inputs);
            assert(g.valid_outlet(g.nodes[n].inputs[k]));
        }
    }
    assert(c.backrefs_ok()) by {
        assert forall|n: int, k: int|
            c.live(n) && 0 <= k < c.nodes[n].inputs.len() implies {
            let o = #[trigger] c.nodes[n].inputs[k];
            c.nodes[o.node as int].outputs[o.slot as int].successors.contains(
                Inlet { node: n as usize, slot: k as usize },
            )
        } by {
            assert(c.nodes[n].inputs == g.nodes[n].inputs);
            let o = g.nodes[n].inputs[k];
            assert(g.valid_outlet(o));
            assert(c.nodes[o.node as int].outputs[o.slot as int].successors == g.nodes[o.node as int].outputs[o.slot as int].successors);
        }
        assert forall|m: int, s: int, t: int|
            0 <= m < c.nodes.len() && 0 <= s < c.nodes[m].outputs.len() && 0 <= t < c.nodes[m].outputs[s].successors.len() implies {
            let inl = #[trigger] c.nodes[m].outputs[s].successors[t];
            &&& c.valid_inlet(inl)
            &&& c.nodes[inl.node as int].inputs[inl.slot as int] == (Outlet {
                node: m as usize,
                slot: s as usize,
            })
        } by {
            assert(c.nodes[m].outputs[s].successors == g.nodes[m].outputs[s].successors);
            let inl = g.nodes[m].outputs[s].successors[t];
            assert(g.valid_inlet(inl));
            assert(c.nodes[inl.node as int].inputs == g.nodes[inl.node as int].inputs);
            assert(c.live(inl.node as int) == g.live(inl.node as int));
        }
        assert forall|m: int, s: int, t1: int, t2: int|
            0 <= m < c.nodes.len() && 0 <= s < c.nodes[m].outputs.len() && 0 <= t1 < t2 < c.nodes[m].outputs[s].successors.len() implies (
        #[trigger] c.nodes[m].outputs[s].successors[t1]) != (
        #[trigger] c.nodes[m].outputs[s].successors[t2]) by {
            assert(c.nodes[m].outputs[s].successors == g.nodes[m].outputs[s].successors);
        }
    }
    assert(c.removed_ok()) by {
        assert forall|n: int|
            0 <= n < c.nodes.len() && c.nodes[n].op is Removed implies ((
        #[trigger] c.nodes[n]).inputs.len() == 0 && c.nodes[n].outputs.len() == 0) by {
            assert(g.nodes[n].op is Removed);
            assert(c.nodes[n].inputs == g.nodes[n].inputs);
        }
    }
    assert(c.io_ok()) by {
        assert forall|k: int| 0 <= k < c.inputs.len() implies c.valid_outlet(#[trigger] c.inputs[k])
            && c.nodes[c.inputs[k].node as int].op is Source by {
            assert(g.valid_outlet(g.inputs[k]));
            assert(g.nodes[g.inputs[k].node as int].op is Source);
            assert(c.nodes[g.inputs[k].node as int].op is Source);
        }
        assert forall|k: int| 0 <= k < c.outputs.len() implies c.valid_outlet(
            #[trigger] c.outputs[k],
        ) by {
            assert(g.valid_outlet(g.outputs[k]));
        }
    }
    assert(c.names_ok()) by {
        assert forall|m: int, n: int|
            c.live(m) && c.live(n) && m != n implies c.nodes[m].name != c.nodes[n].name by {
            assert(c.nodes[m].name == g.nodes[m].name);
            assert(c.nodes[n].name == g.nodes[n].name);
        }
    }
    assert(c.acyclic()) by {
        let r = choose|r: Seq<nat>| g.respects_ranks(r);
        assert forall|m: int, n: int|
            0 <= m < c.nodes.len() && 0 <= n < c.nodes.len() && c.edge(m, n) implies r[m]
            < r[n] by {
            assert(c.nodes[n].inputs == g.nodes[n].inputs);
            assert(g.edge(m, n));
        }
        assert(c.respects_ranks(r));
    }
    assert(facts_wf(c)) by {
        assert forall|n: int, s: int|
            0 <= n < c.nodes.len() && 0 <= s < c.nodes[n].outputs.len() implies (
        #[trigger] c.nodes[n].outputs[s]).fact.wf() by {
            let f = g.nodes[n].outputs[s].fact;
            assert(f.wf());
            assert(c.nodes[n].outputs[s].fact == subst_fact(f, v));
            if f.value is Some {
                let t = f.value->Some_0;
                assert(f.shape == Some(fixed_dims(t.shape)));
                assert(subst_fact(f, v).shape == Some(
                    fixed_dims(t.shape).map_values(|d: Dim| subst_dim(d, v)),
                ));
                assert(fixed_dims(t.shape).map_values(|d: Dim| subst_dim(d, v)) =~= fixed_dims(
                    t.shape,
                ));
            }
        }
    }
    assert(ops_wf(c)) by {
        assert forall|n: int|
            0 <= n < c.nodes.len() implies ((#[trigger] c.nodes[n].op) matches OpModel::Const(t)
            ==> t.wf()) by {
            assert(c.nodes[n].op matches OpModel::Const(t) ==> g.nodes[n].op == OpModel::Const(t));
        }
    }
}

/// Rebuild the graph with every fact substituted (and, when `pulse` is set,
/// every operation pulsed).
fn subst_exec(g: &Graph, v: usize, pulse: bool) -> (r: Graph)
    requires
        g@.wf(),
        sem_wf(g@),
    ensures
        r@ == subst_graph(g@, v, pulse),
        r@.wf(),
        sem_wf(r@),
{
    let ghost target = subst_graph(g@, v, pulse);
    let mut nodes: Vec<Node> = Vec::new();
    let mut n: usize = 0;
    while n < g.nodes.len()
        invariant
            n <= g.nodes.len(),
            nodes.len() == n,
            target == subst_graph(g@, v, pulse),
            forall|j: int| 0 <= j < n ==> nodes@[j]@ == target.nodes[j],
        decreases g.nodes.len() - n,
    {
        let gn = &g.nodes[n];
        let op = if pulse {
            match &gn.op {
                Op::SlidingSum { window } => (Op::PulsedSlidingSum { window: *window }),
                other => other.duplicate(),
            }
        } else {
            gn.op.duplicate()
        };
        let mut outputs: Vec<OutputSlot> = Vec::new();
        let mut s: usize = 0;
        while s < gn.outputs.len()
            invariant
                s <= gn.outputs.len(),
                outputs.len() == s,
                gn == &g.nodes[n as int],
                n < g.nodes.len(),
                forall|s2: int|
                    0 <= s2 < s ==> outputs@[s2]@ == (SlotModel {
                        fact: subst_fact(g@.nodes[n as int].outputs[s2].fact, v),
                        successors: g@.nodes[n as int].outputs[s2].successors,
                    }),
            decreases gn.outputs.len() - s,
        {
            let of = &gn.outputs[s].fact;
            let shape = match &of.shape {
                Some(dims) => {
                    let mut nd: Vec<Dim> = Vec::new();
                    let mut i: usize = 0;
                    while i < dims.len()
                        invariant
                            i <= dims.len(),
                            nd.len() == i,
                            forall|j: int| 0 <= j < i ==> nd@[j] == subst_dim(dims@[j], v),
                        decreases dims.len() - i,
                    {
                        nd.push(
                            match dims[i] {
                                Dim::Stream => Dim::Fixed(v),
                                Dim::Fixed(x) => Dim::Fixed(x),
                            },
                        );
                        i += 1;
                    }
                    Some(nd)
                },
                None => None,
            };
            let fact = Fact {
                dt: of.dt,
                shape,
                value: match &of.value {
                    Some(t) => Some(t.duplicate()),
                    None => None,
                },
            };
            proof {
                assert(fact@.shape matches Some(sh) ==> sh =~= subst_fact(of@, v).shape->Some_0);
                assert(fact@ =~= subst_fact(of@, v));
                assert(of@ == g@.nodes[n as int].outputs[s as int].fact);
            }
            outputs.push(OutputSlot {
                fact,
                successors: crate::graph::clone_inlets(&gn.outputs[s].successors),
            });
            s += 1;
        }
        let node = Node {
            id: gn.id,
            name: gn.name.clone(),
            op,
            inputs: crate::graph::clone_outlets(&gn.inputs),
            outputs,
        };
        proof {
            assert(node@.outputs =~= target.nodes[n as int].outputs);
            assert(node@ =~= target.nodes[n as int]);
        }
        nodes.push(node);
        n += 1;
    }
    let r = Graph {
        nodes,
        inputs: crate::graph::clone_outlets(&g.inputs),
        outputs: crate::graph::clone_outlets(&g.outputs),
    };
    proof {
        assert(r@.nodes =~= target.nodes);
        assert(r@ =~= target);
        lemma_subst_wf(g@, v, pulse);
    }
    r
}

/// Substitute a concrete length for the symbolic streaming dimension
/// everywhere it appears. A declutter pass should follow, to re-simplify
/// expressions that have become constant.
pub fn concretize_stream_dim(g: Graph, value: usize) -> (r: Result<Graph, StreamError>)
    requires
        g@.wf(),
        sem_wf(g@),
    ensures
        match r {
            Ok(h) => {
                &&& value >= 1
                &&& h@ == subst_graph(g@, value, false)
                &&& h@.wf()
                &&& sem_wf(h@)
            },
            Err(e) => e == StreamError::InvalidPulse && value == 0,
        },
{
    if value == 0 {
        return Err(StreamError::InvalidPulse);
    }
    Ok(subst_exec(&g, value, false))
}

/// The first node whose operation is already pulsed, if any: such a graph
/// cannot be pulsed again.
pub open spec fn first_pulsed(g: GraphModel, n: int) -> Option<int>
    decreases g.nodes.len() - n,
{
    if n < 0 || n >= g.nodes.len() {
        None
    } else if g.nodes[n].op matches OpModel::PulsedSlidingSum { .. } {
        Some(n)
    } else {
        first_pulsed(g, n + 1)
    }
}

/// Rewrite a typed streaming graph into its pulsed form: every operation
/// that depends on the full extent of the streaming axis becomes its
/// state-carrying windowed counterpart, and the streaming dimension is bound
/// to the pulse length everywhere. Feeding the result consecutive windows of
/// the stream reproduces the unpulsed graph's output window by window.
pub fn to_pulsed(g: Graph, pulse: usize) -> (r: Result<Graph, StreamError>)
    requires
        g@.wf(),
        sem_wf(g@),
    ensures
        match r {
            Ok(h) => {
                &&& pulse >= 1
                &&& first_untyped(g@, false, 0, 0) is None
                &&& first_pulsed(g@, 0) is None
                &&& h@ == subst_graph(g@, pulse, true)
                &&& h@.wf()
                &&& sem_wf(h@)
            },
            Err(e) => {
                ||| (e == StreamError::InvalidPulse && pulse == 0)
                ||| (first_untyped(g@, false, 0, 0) matches Some((n, s)) && e == (
                StreamError::UnresolvedShape { node: n as usize, slot: s as usize }) && pulse >= 1)
                ||| (first_pulsed(g@, 0) matches Some(n) && e == (StreamError::Unsupported {
                    node: n as usize,
                }) && pulse >= 1 && first_untyped(g@, false, 0, 0) is None)
            },
        },
{
    if pulse == 0 {
        return Err(StreamError::InvalidPulse);
    }
    if let Some((n, s)) = check_facts(&g, false) {
        return Err(StreamError::UnresolvedShape { node: n, slot: s });
    }
    let mut n: usize = 0;
    while n < g.nodes.len()
        invariant
            n <= g.nodes.len(),
            pulse >= 1,
            first_untyped(g@, false, 0, 0) is None,
            first_pulsed(g@, 0) == first_pulsed(g@, n as int),
        decreases g.nodes.len() - n,
    {
        if matches!(g.nodes[n].op, Op::PulsedSlidingSum { .. }) {
            proof {
                assert(g@.nodes[n as int].op matches OpModel::PulsedSlidingSum { .. });
            }
            return Err(StreamError::Unsupported { node: n });
        }
        n += 1;
    }
    Ok(subst_exec(&g, pulse, true))
}

} // verus!
