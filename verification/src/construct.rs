//! Incremental construction of graphs: adding nodes and edges, designating
//! ports, and overriding facts. Front ends build an initial graph through
//! these; every operation preserves the graph invariant or leaves the graph
//! untouched.

use vstd::prelude::*;

use crate::fact::Fact;
use crate::graph::{Graph, GraphModel, Inlet, Node, NodeModel, Op, Outlet, OutputSlot, SlotModel};
use crate::patch::outlet_ok;
use crate::topo::{nat_ranks, toposort};

verus! {

/// Why a construction step was refused. The graph is unchanged in every
/// case.
#[derive(Clone, Copy, PartialEq, Eq, Structural, Debug)]
pub enum GraphError {
    /// A live node with that name already exists.
    DuplicateName,
    /// The outlet does not name a live output slot.
    InvalidOutlet,
    /// The node id does not name a live node.
    InvalidNode,
    /// The edge would close a directed cycle.
    Cycle,
    /// The operation is not accepted there (a tombstone, or a non-source op
    /// on a designated input).
    BadOp,
}

/// The model of a freshly added node.
pub open spec fn fresh_node(g: GraphModel, name: Seq<char>, op: crate::graph::OpModel, out_facts: Seq<crate::fact::FactModel>) -> NodeModel {
    NodeModel {
        id: g.nodes.len() as usize,
        name: name,
        op: op,
        inputs: Seq::empty(),
        outputs: out_facts.map_values(|f: crate::fact::FactModel| SlotModel { fact: f, successors: Seq::empty() }),
    }
}

/// The model of a graph after wiring outlet `o` into a fresh input slot of
/// node `n`.
pub open spec fn with_edge(g: GraphModel, o: Outlet, n: int) -> GraphModel {
    let slot = g.nodes[n].inputs.len();
    let step1 = g.nodes.update(
        n,
        NodeModel { inputs: g.nodes[n].inputs.push(o), ..g.nodes[n] },
    );
    let src = step1[o.node as int];
    let step2 = step1.update(
        o.node as int,
        NodeModel {
            outputs: src.outputs.update(
                o.slot as int,
                SlotModel {
                    fact: src.outputs[o.slot as int].fact,
                    successors: src.outputs[o.slot as int].successors.push(
                        Inlet { node: n as usize, slot: slot as usize },
                    ),
                },
            ),
            ..src
        },
    );
    GraphModel { nodes: step2, ..g }
}

/// There is a live node named `name`.
pub open spec fn name_taken(g: GraphModel, name: Seq<char>) -> bool {
    exists|n: int| g.live(n) && (#[trigger] g.nodes[n]).name == name
}

impl Graph {
    /// Find the live node carrying `name`.
    pub fn node_by_name(&self, name: &String) -> (r: Option<usize>)
        ensures
            match r {
                Some(n) => self@.live(n as int) && self@.nodes[n as int].name == name@,
                None => !name_taken(self@, name@),
            },
    {
        let mut n: usize = 0;
        while n < self.nodes.len()
            invariant
                n <= self.nodes.len(),
                forall|n2: int|
                    0 <= n2 < n && self@.live(n2) ==> (#[trigger] self@.nodes[n2]).name != name@,
            decreases self.nodes.len() - n,
        {
            if !matches!(self.nodes[n].op, Op::Removed) && self.nodes[n].name == *name {
                return Some(n);
            }
            n += 1;
        }
        None
    }

    /// Append a fresh node with no inputs. Fails only on a name clash or a
    /// tombstone operation; the new node's id is returned.
    pub fn add_node(&mut self, name: String, op: Op, out_facts: Vec<Fact>) -> (r: Result<
        usize,
        GraphError,
    >)
        requires
            old(self)@.wf(),
            old(self)@.nodes.len() < usize::MAX,
        ensures
            match r {
                Ok(id) => {
                    &&& !name_taken(old(self)@, name@)
                    &&& !(op@ is Removed)
                    &&& id == old(self)@.nodes.len()
                    &&& final(self)@ == (GraphModel {
                        nodes: old(self)@.nodes.push(
                            fresh_node(
                                old(self)@,
                                name@,
                                op@,
                                out_facts@.map_values(|f: Fact| f@),
                            ),
                        ),
                        ..old(self)@
                    })
                    &&& final(self)@.wf()
                },
                Err(e) => {
                    &&& final(self)@ == old(self)@
                    &&& (e == GraphError::DuplicateName ==> name_taken(old(self)@, name@))
                    &&& (e == GraphError::BadOp ==> op@ is Removed)
                    &&& (e == GraphError::DuplicateName || e == GraphError::BadOp)
                },
            },
    {
        if matches!(op, Op::Removed) {
            return Err(GraphError::BadOp);
        }
        if self.node_by_name(&name).is_some() {
            return Err(GraphError::DuplicateName);
        }
        let id = self.nodes.len();
        let mut outputs: Vec<OutputSlot> = Vec::new();
        let mut t: usize = 0;
        while t < out_facts.len()
            invariant
                t <= out_facts.len(),
                outputs.len() == t,
                forall|t2: int|
                    0 <= t2 < t ==> outputs@[t2]@ == (SlotModel {
                        fact: out_facts@[t2]@,
                        successors: Seq::<Inlet>::empty(),
                    }),
            decreases out_facts.len() - t,
        {
            outputs.push(OutputSlot { fact: out_facts[t].duplicate(), successors: Vec::new() });
            t += 1;
        }
        let ghost old_model = self@;
        let ghost node_model = fresh_node(old_model, name@, op@, out_facts@.map_values(|f: Fact| f@));
        let node = Node { id, name, op, inputs: Vec::new(), outputs };
        proof {
            assert(node@.outputs =~= node_model.outputs);
            assert(node@ =~= node_model);
        }
        self.nodes.push(node);
        proof {
            let new_model = self@;
            assert(new_model.nodes =~= old_model.nodes.push(node_model));
            assert(new_model =~= (GraphModel { nodes: old_model.nodes.push(node_model), ..old_model }));
            // the invariant survives: the fresh node is inert.
            let r = choose|r: Seq<nat>| old_model.respects_ranks(r);
            let r2 = r.push(0);
            assert forall|m: int, n: int|
                0 <= m < new_model.nodes.len() && 0 <= n < new_model.nodes.len() && new_model.edge(
                    m,
                    n,
                ) implies r2[m] < r2[n] by {
                assert(n < old_model.nodes.len());
                assert(new_model.nodes[n].inputs == old_model.nodes[n].inputs);
                assert(old_model.edge(m, n));
            }
            assert(new_model.respects_ranks(r2));
            assert forall|n2: int, k2: int|
                new_model.live(n2) && 0 <= k2 < new_model.nodes[n2].inputs.len() implies {
                let o = #[trigger] new_model.nodes[n2].inputs[k2];
                &&& new_model.valid_outlet(o)
                &&& new_model.nodes[o.node as int].outputs[o.slot as int].successors.contains(
                    Inlet { node: n2 as usize, slot: k2 as usize },
                )
            } by {
                assert(n2 < old_model.nodes.len());
                assert(new_model.nodes[n2] == old_model.nodes[n2]);
                assert(old_model.valid_outlet(old_model.nodes[n2].inputs[k2]));
            }
            assert(new_model.inputs_ok());
            assert forall|m: int, s: int, t: int|
                0 <= m < new_model.nodes.len() && 0 <= s < new_model.nodes[m].outputs.len() && 0
                    <= t < new_model.nodes[m].outputs[s].successors.len() implies {
                let inl = #[trigger] new_model.nodes[m].outputs[s].successors[t];
                &&& new_model.valid_inlet(inl)
                &&& new_model.nodes[inl.node as int].inputs[inl.slot as int] == (Outlet {
                    node: m as usize,
                    slot: s as usize,
                })
            } by {
                assert(node_model.outputs.len() == out_facts@.len());
                if m < old_model.nodes.len() {
                    assert(new_model.nodes[m] == old_model.nodes[m]);
                    let inl = old_model.nodes[m].outputs[s].successors[t];
                    assert(old_model.valid_inlet(inl));
                    assert(new_model.nodes[inl.node as int] == old_model.nodes[inl.node as int]);
                } else {
                    assert(new_model.nodes[m].outputs[s].successors.len() == 0);
                }
            }
            assert forall|m: int, s: int, t1: int, t2: int|
                0 <= m < new_model.nodes.len() && 0 <= s < new_model.nodes[m].outputs.len() && 0
                    <= t1 < t2 < new_model.nodes[m].outputs[s].successors.len() implies (
            #[trigger] new_model.nodes[m].outputs[s].successors[t1]) != (
            #[trigger] new_model.nodes[m].outputs[s].successors[t2]) by {
                if m < old_model.nodes.len() {
                    assert(new_model.nodes[m] == old_model.nodes[m]);
                } else {
                    assert(new_model.nodes[m].outputs[s].successors.len() == 0);
                }
            }
            assert(new_model.backrefs_ok());
            assert forall|n2: int|
                0 <= n2 < new_model.nodes.len() && new_model.nodes[n2].op is Removed implies ((
            #[trigger] new_model.nodes[n2]).inputs.len() == 0 && new_model.nodes[n2].outputs.len()
                == 0) by {
                assert(n2 < old_model.nodes.len());
                assert(new_model.nodes[n2] == old_model.nodes[n2]);
            }
            assert(new_model.removed_ok());
            assert forall|o: Outlet|
                old_model.valid_outlet(o) implies new_model.valid_outlet(o) by {
                assert(new_model.nodes[o.node as int] == old_model.nodes[o.node as int]);
            }
            assert forall|k: int|
                0 <= k < new_model.inputs.len() implies new_model.valid_outlet(
                #[trigger] new_model.inputs[k],
            ) && new_model.nodes[new_model.inputs[k].node as int].op is Source by {
                assert(old_model.valid_outlet(old_model.inputs[k]));
                assert(new_model.nodes[new_model.inputs[k].node as int] == old_model.nodes[old_model.inputs[k].node as int]);
            }
            assert forall|k: int|
                0 <= k < new_model.outputs.len() implies new_model.valid_outlet(
                #[trigger] new_model.outputs[k],
            ) by {
                assert(old_model.valid_outlet(old_model.outputs[k]));
            }
            assert(new_model.io_ok());
            assert forall|m: int, n: int|
                new_model.live(m) && new_model.live(n) && m != n implies new_model.nodes[m].name
                    != new_model.nodes[n].name by {
                if m < old_model.nodes.len() && n < old_model.nodes.len() {
                    assert(new_model.nodes[m] == old_model.nodes[m]);
                    assert(new_model.nodes[n] == old_model.nodes[n]);
                    assert(old_model.live(m) && old_model.live(n));
                } else if m < old_model.nodes.len() {
                    assert(new_model.nodes[m] == old_model.nodes[m]);
                    assert(old_model.live(m));
                    assert(!(old_model.live(m) && old_model.nodes[m].name == name@));
                } else if n < old_model.nodes.len() {
                    assert(new_model.nodes[n] == old_model.nodes[n]);
                    assert(old_model.live(n));
                    assert(!(old_model.live(n) && old_model.nodes[n].name == name@));
                }
            }
            assert(new_model.names_ok());
            assert(new_model.wf());
        }
        Ok(id)
    }

    /// Wire `from` into a fresh input slot of node `to`. Fails when the
    /// outlet or node is not live (or the node's input list can grow no
    /// further), or when the edge would close a cycle; the graph is
    /// unchanged on failure.
    pub fn add_edge(&mut self, from: Outlet, to: usize) -> (r: Result<usize, GraphError>)
        requires
            old(self)@.wf(),
        ensures
            match r {
                Ok(slot) => {
                    &&& old(self)@.valid_outlet(from)
                    &&& old(self)@.live(to as int)
                    &&& slot == old(self)@.nodes[to as int].inputs.len()
                    &&& final(self)@ == with_edge(old(self)@, from, to as int)
                    &&& final(self)@.wf()
                },
                Err(e) => {
                    &&& final(self)@ == old(self)@
                    &&& (e == GraphError::InvalidOutlet ==> !old(self)@.valid_outlet(from))
                    &&& (e == GraphError::InvalidNode ==> !old(self)@.live(to as int) || old(
                        self,
                    )@.nodes[to as int].inputs.len() >= usize::MAX)
                    &&& (e == GraphError::Cycle ==> !with_edge(old(self)@, from, to as int).acyclic())
                    &&& (e == GraphError::InvalidOutlet || e == GraphError::InvalidNode || e
                        == GraphError::Cycle)
                },
            },
    {
        if !outlet_ok(self, from) {
            return Err(GraphError::InvalidOutlet);
        }
        if !(to < self.nodes.len() && !matches!(self.nodes[to].op, Op::Removed)) {
            return Err(GraphError::InvalidNode);
        }
        if self.nodes[to].inputs.len() == usize::MAX {
            return Err(GraphError::InvalidNode);
        }
        let ghost old_model = self@;
        let ghost target = with_edge(old_model, from, to as int);
        // build the candidate without touching the graph
        let mut cand = self.duplicate();
        let slot = cand.nodes[to].inputs.len();
        let rebuilt_to = {
            let nto = &cand.nodes[to];
            let mut inputs = crate::graph::clone_outlets(&nto.inputs);
            inputs.push(from);
            let mut outputs: Vec<OutputSlot> = Vec::new();
            let mut t: usize = 0;
            while t < nto.outputs.len()
                invariant
                    t <= nto.outputs.len(),
                    outputs.len() == t,
                    nto == &cand.nodes[to as int],
                    to < cand.nodes.len(),
                    forall|t2: int| 0 <= t2 < t ==> outputs@[t2]@ == cand@.nodes[to as int].outputs[t2],
                decreases nto.outputs.len() - t,
            {
                outputs.push(nto.outputs[t].duplicate());
                t += 1;
            }
            Node { id: nto.id, name: nto.name.clone(), op: nto.op.duplicate(), inputs, outputs }
        };
        proof {
            assert(rebuilt_to@.outputs =~= old_model.nodes[to as int].outputs);
            assert(rebuilt_to@ =~= (NodeModel {
                inputs: old_model.nodes[to as int].inputs.push(from),
                ..old_model.nodes[to as int]
            }));
        }
        cand.nodes.set(to, rebuilt_to);
        proof {
            assert(cand@.nodes =~= old_model.nodes.update(
                to as int,
                (NodeModel {
                    inputs: old_model.nodes[to as int].inputs.push(from),
                    ..old_model.nodes[to as int]
                }),
            ));
        }
        let ghost step1 = cand@.nodes;
        // mirror the edge on the source slot
        let rebuilt_src = {
            let nsrc = &cand.nodes[from.node];
            let mut outputs: Vec<OutputSlot> = Vec::new();
            let mut t: usize = 0;
            while t < nsrc.outputs.len()
                invariant
                    t <= nsrc.outputs.len(),
                    outputs.len() == t,
                    nsrc == &cand.nodes[from.node as int],
                    from.node < cand.nodes.len(),
                    from.slot < nsrc.outputs.len(),
                    slot == old_model.nodes[to as int].inputs.len(),
                    forall|t2: int|
                        0 <= t2 < t && t2 != from.slot ==> outputs@[t2]@ == cand@.nodes[from.node as int].outputs[t2],
                    forall|t2: int|
                        0 <= t2 < t && t2 == from.slot ==> outputs@[t2]@ == (SlotModel {
                            fact: cand@.nodes[from.node as int].outputs[t2].fact,
                            successors: cand@.nodes[from.node as int].outputs[t2].successors.push(
                                Inlet { node: to, slot: slot },
                            ),
                        }),
                decreases nsrc.outputs.len() - t,
            {
                if t == from.slot {
                    let mut succ = crate::graph::clone_inlets(&nsrc.outputs[t].successors);
                    succ.push(Inlet { node: to, slot });
                    outputs.push(OutputSlot { fact: nsrc.outputs[t].fact.duplicate(), successors: succ });
                } else {
                    outputs.push(nsrc.outputs[t].duplicate());
                }
                t += 1;
            }
            Node {
                id: nsrc.id,
                name: nsrc.name.clone(),
                op: nsrc.op.duplicate(),
                inputs: crate::graph::clone_outlets(&nsrc.inputs),
                outputs,
            }
        };
        proof {
            let src = step1[from.node as int];
            assert(rebuilt_src@.outputs =~= src.outputs.update(
                from.slot as int,
                (SlotModel {
                    fact: src.outputs[from.slot as int].fact,
                    successors: src.outputs[from.slot as int].successors.push(
                        Inlet { node: to, slot: slot },
                    ),
                }),
            ));
            assert(rebuilt_src@ =~= (NodeModel {
                outputs: src.outputs.update(
                    from.slot as int,
                    (SlotModel {
                        fact: src.outputs[from.slot as int].fact,
                        successors: src.outputs[from.slot as int].successors.push(
                            Inlet { node: to, slot: slot },
                        ),
                    }),
                ),
                ..src
            }));
        }
        cand.nodes.set(from.node, rebuilt_src);
        proof {
            assert(cand@.nodes =~= target.nodes);
            assert(cand@ =~= target);
            // the scheduler preconditions carry over from the old invariant.
            assert forall|n2: int, k2: int|
                cand@.live(n2) && 0 <= k2 < cand@.nodes[n2].inputs.len() implies cand@.valid_outlet(
                #[trigger] cand@.nodes[n2].inputs[k2],
            ) by {
                assert(cand@.nodes[n2].op == old_model.nodes[n2].op);
                if n2 == to && k2 == slot {
                    assert(cand@.nodes[n2].inputs[k2] == from);
                    assert(old_model.valid_outlet(from));
                } else {
                    assert(cand@.nodes[n2].inputs[k2] == old_model.nodes[n2].inputs[k2]);
                    assert(old_model.valid_outlet(old_model.nodes[n2].inputs[k2]));
                }
                let o = cand@.nodes[n2].inputs[k2];
                assert(cand@.nodes[o.node as int].op == old_model.nodes[o.node as int].op);
                assert(cand@.nodes[o.node as int].outputs.len() == old_model.nodes[o.node as int].outputs.len());
            }
            assert(cand@.inputs_ok());
            assert forall|n2: int|
                0 <= n2 < cand@.nodes.len() && cand@.nodes[n2].op is Removed implies ((
            #[trigger] cand@.nodes[n2]).inputs.len() == 0 && cand@.nodes[n2].outputs.len() == 0) by {
                assert(old_model.live(to as int) && old_model.live(from.node as int));
                assert(cand@.nodes[n2].op == old_model.nodes[n2].op);
                assert(n2 != to && n2 != from.node as int);
                assert(cand@.nodes[n2] == old_model.nodes[n2]);
            }
            assert(cand@.removed_ok());
        }
        match toposort(&cand) {
            None => Err(GraphError::Cycle),
            Some(ranks) => {
                proof {
                    lemma_with_edge_wf(old_model, from, to as int, nat_ranks(ranks@));
                }
                *self = cand;
                Ok(slot)
            },
        }
    }
}

/// The edge-extended graph keeps the invariant, given a rank witness for it.
proof fn lemma_with_edge_wf(g: GraphModel, from: Outlet, to: int, r: Seq<nat>)
    requires
        g.wf(),
        g.valid_outlet(from),
        g.live(to),
        g.nodes[to].inputs.len() < usize::MAX,
        with_edge(g, from, to).respects_ranks(r),
    ensures
        with_edge(g, from, to).wf(),
{
    let c = with_edge(g, from, to);
    let slot = g.nodes[to].inputs.len();
    assert(c.nodes.len() == g.nodes.len());
    assert(c.acyclic()) by {
        assert(c.respects_ranks(r));
    }
    // per-node shape facts
    assert forall|n: int| 0 <= n < c.nodes.len() implies {
        let a = #[trigger] c.nodes[n];
        let b = g.nodes[n];
        a.id == b.id && a.name == b.name && a.op == b.op && a.outputs.len() == b.outputs.len()
    } by {}
    assert forall|n: int| 0 <= n < c.nodes.len() && n != to implies (#[trigger] c.nodes[n]).inputs
        == g.nodes[n].inputs by {}
    assert(c.nodes[to].inputs =~= g.nodes[to].inputs.push(from));
    assert(c.ids_ok());
    assert forall|n: int| #[trigger] c.live(n) == g.live(n) by {
        if 0 <= n < g.nodes.len() {
            assert(c.nodes[n].op == g.nodes[n].op);
        }
    }
    assert(c.names_ok()) by {
        assert forall|m: int, n: int|
            c.live(m) && c.live(n) && m != n implies c.nodes[m].name != c.nodes[n].name by {
            assert(c.nodes[m].name == g.nodes[m].name);
            assert(c.nodes[n].name == g.nodes[n].name);
        }
    }
    assert(c.removed_ok()) by {
        assert forall|n: int|
            0 <= n < c.nodes.len() && c.nodes[n].op is Removed implies ((
        #[trigger] c.nodes[n]).inputs.len() == 0 && c.nodes[n].outputs.len() == 0) by {
            assert(n != to && n != from.node as int);
            assert(c.nodes[n] == g.nodes[n]);
        }
    }
    assert forall|o: Outlet| #[trigger] c.valid_outlet(o) == g.valid_outlet(o) by {}
    assert(c.io_ok()) by {
        assert forall|k: int| 0 <= k < c.inputs.len() implies c.valid_outlet(#[trigger] c.inputs[k])
            && c.nodes[c.inputs[k].node as int].op is Source by {
            assert(g.valid_outlet(g.inputs[k]));
            assert(c.nodes[c.inputs[k].node as int].op == g.nodes[g.inputs[k].node as int].op);
        }
        assert forall|k: int| 0 <= k < c.outputs.len() implies c.valid_outlet(
            #[trigger] c.outputs[k],
        ) by {
            assert(g.valid_outlet(g.outputs[k]));
        }
    }
    assert(c.inputs_ok()) by {
        assert forall|n: int, k: int|
            c.live(n) && 0 <= k < c.nodes[n].inputs.len() implies c.valid_outlet(
            #[trigger] c.nodes[n].inputs[k],
        ) by {
            if n == to && k == slot {
                assert(c.nodes[n].inputs[k] == from);
            } else {
                assert(c.nodes[n].inputs[k] == g.nodes[n].inputs[k]);
                assert(g.valid_outlet(g.nodes[n].inputs[k]));
            }
        }
    }
    // back-references: one new inlet, one new successor entry, all else kept.
    let new_inlet = Inlet { node: to as usize, slot: slot as usize };
    assert(c.nodes[from.node as int].outputs[from.slot as int].successors =~= g.nodes[from.node as int].outputs[from.slot as int].successors.push(new_inlet));
    assert forall|m: int, s: int|
        0 <= m < c.nodes.len() && 0 <= s < c.nodes[m].outputs.len() && !(m == from.node as int && s
            == from.slot as int) implies (#[trigger] c.nodes[m].outputs[s]).successors
        == g.nodes[m].outputs[s].successors by {}
    assert(c.backrefs_ok()) by {
        assert forall|n: int, k: int|
            c.live(n) && 0 <= k < c.nodes[n].inputs.len() implies {
            let o = #[trigger] c.nodes[n].inputs[k];
            c.nodes[o.node as int].outputs[o.slot as int].successors.contains(
                Inlet { node: n as usize, slot: k as usize },
            )
        } by {
            let o = c.nodes[n].inputs[k];
            if n == to && k == slot {
                assert(o == from);
                assert(c.nodes[o.node as int].outputs[o.slot as int].successors.last() == new_inlet);
            } else {
                assert(o == g.nodes[n].inputs[k]);
                let old_succ = g.nodes[o.node as int].outputs[o.slot as int].successors;
                assert(old_succ.contains(Inlet { node: n as usize, slot: k as usize }));
                let t = choose|t: int|
                    0 <= t < old_succ.len() && old_succ[t] == Inlet {
                        node: n as usize,
                        slot: k as usize,
                    };
                assert(c.nodes[o.node as int].outputs[o.slot as int].successors[t] == Inlet {
                    node: n as usize,
                    slot: k as usize,
                });
            }
        }
        assert forall|m: int, s: int, t: int|
            0 <= m < c.nodes.len() && 0 <= s < c.nodes[m].outputs.len() && 0 <= t < c.nodes[m].outputs[s].successors.len() implies {
            let inl = #[trigger] c.nodes[m].outputs[s].successors[t];
            &&& c.valid_inlet(inl)
            &&& c.nodes[inl.node as int].inputs[inl.slot as int] == (Outlet {
                node: m as usize,
                slot: s as usize,
            })
        } by {
            let inl = c.nodes[m].outputs[s].successors[t];
            if m == from.node as int && s == from.slot as int && t == c.nodes[m].outputs[s].successors.len() - 1 {
                assert(inl == new_inlet);
                assert(c.nodes[to].inputs[slot as int] == from);
                assert((Outlet { node: m as usize, slot: s as usize }) == from);
            } else {
                assert(inl == g.nodes[m].outputs[s].successors[t]);
                assert(g.valid_inlet(inl));
                assert(g.nodes[inl.node as int].inputs[inl.slot as int] == (Outlet {
                    node: m as usize,
                    slot: s as usize,
                }));
                if inl.node as int == to {
                    assert(c.nodes[to].inputs[inl.slot as int] == g.nodes[to].inputs[inl.slot as int]);
                }
            }
        }
        assert forall|m: int, s: int, t1: int, t2: int|
            0 <= m < c.nodes.len() && 0 <= s < c.nodes[m].outputs.len() && 0 <= t1 < t2 < c.nodes[m].outputs[s].successors.len() implies (
        #[trigger] c.nodes[m].outputs[s].successors[t1]) != (
        #[trigger] c.nodes[m].outputs[s].successors[t2]) by {
            let succ = c.nodes[m].outputs[s].successors;
            if m == from.node as int && s == from.slot as int && t2 == succ.len() - 1 {
                assert(succ[t1] == g.nodes[m].outputs[s].successors[t1]);
                assert(g.valid_inlet(succ[t1]));
                if succ[t1].node as int == to {
                    assert(succ[t1].slot < g.nodes[to].inputs.len());
                }
            }
        }
    }
}


/// Two arenas of the same shape (everything equal but the facts) satisfy the
/// same invariant.
proof fn lemma_facts_only_wf(a: GraphModel, b: GraphModel)
    requires
        a.wf(),
        a.nodes.len() == b.nodes.len(),
        a.inputs == b.inputs,
        a.outputs == b.outputs,
        forall|n: int|
            0 <= n < a.nodes.len() ==> {
                let x = #[trigger] a.nodes[n];
                let y = b.nodes[n];
                x.id == y.id && x.name == y.name && x.op == y.op && x.inputs == y.inputs
                    && x.outputs.len() == y.outputs.len()
            },
        forall|n: int, s: int|
            0 <= n < a.nodes.len() && 0 <= s < a.nodes[n].outputs.len() ==> (
            #[trigger] a.nodes[n].outputs[s]).successors == b.nodes[n].outputs[s].successors,
    ensures
        b.wf(),
{
    assert forall|n: int| #[trigger] b.live(n) == a.live(n) by {
        if 0 <= n < a.nodes.len() {
            assert(b.nodes[n].op == a.nodes[n].op);
        }
    }
    assert forall|o: Outlet| #[trigger] b.valid_outlet(o) == a.valid_outlet(o) by {
        if 0 <= o.node < a.nodes.len() {
            assert(b.nodes[o.node as int].op == a.nodes[o.node as int].op);
            assert(b.nodes[o.node as int].outputs.len() == a.nodes[o.node as int].outputs.len());
        }
    }
    assert(b.ids_ok()) by {
        assert forall|n: int| 0 <= n < b.nodes.len() implies (#[trigger] b.nodes[n]).id == n by {
            assert(a.nodes[n].id == n);
        }
    }
    assert(b.inputs_ok()) by {
        assert forall|n: int, k: int|
            b.live(n) && 0 <= k < b.nodes[n].inputs.len() implies b.valid_outlet(
            #[trigger] b.nodes[n].inputs[k],
        ) by {
            assert(b.nodes[n].inputs == a.nodes[n].inputs);
            assert(a.valid_outlet(a.nodes[n].inputs[k]));
        }
    }
    assert(b.backrefs_ok()) by {
        assert forall|n: int, k: int|
            b.live(n) && 0 <= k < b.nodes[n].inputs.len() implies {
            let o = #[trigger] b.nodes[n].inputs[k];
            b.nodes[o.node as int].outputs[o.slot as int].successors.contains(
                Inlet { node: n as usize, slot: k as usize },
            )
        } by {
            assert(b.nodes[n].inputs == a.nodes[n].inputs);
            let o = a.nodes[n].inputs[k];
            assert(a.valid_outlet(o));
            assert(b.nodes[o.node as int].outputs[o.slot as int].successors == a.nodes[o.node as int].outputs[o.slot as int].successors);
        }
        assert forall|m: int, s: int, t: int|
            0 <= m < b.nodes.len() && 0 <= s < b.nodes[m].outputs.len() && 0 <= t < b.nodes[m].outputs[s].successors.len() implies {
            let inl = #[trigger] b.nodes[m].outputs[s].successors[t];
            &&& b.valid_inlet(inl)
            &&& b.nodes[inl.node as int].inputs[inl.slot as int] == (Outlet {
                node: m as usize,
                slot: s as usize,
            })
        } by {
            assert(b.nodes[m].outputs[s].successors == a.nodes[m].outputs[s].successors);
            let inl = a.nodes[m].outputs[s].successors[t];
            assert(a.valid_inlet(inl));
            assert(b.nodes[inl.node as int].inputs == a.nodes[inl.node as int].inputs);
            assert(b.nodes[inl.node as int].op == a.nodes[inl.node as int].op);
        }
        assert forall|m: int, s: int, t1: int, t2: int|
            0 <= m < b.nodes.len() && 0 <= s < b.nodes[m].outputs.len() && 0 <= t1 < t2 < b.nodes[m].outputs[s].successors.len() implies (
        #[trigger] b.nodes[m].outputs[s].successors[t1]) != (
        #[trigger] b.nodes[m].outputs[s].successors[t2]) by {
            assert(b.nodes[m].outputs[s].successors == a.nodes[m].outputs[s].successors);
        }
    }
    assert(b.removed_ok()) by {
        assert forall|n: int|
            0 <= n < b.nodes.len() && b.nodes[n].op is Removed implies ((
        #[trigger] b.nodes[n]).inputs.len() == 0 && b.nodes[n].outputs.len() == 0) by {
            assert(b.nodes[n].op == a.nodes[n].op);
            assert(b.nodes[n].inputs == a.nodes[n].inputs);
        }
    }
    assert(b.io_ok()) by {
        assert forall|k: int| 0 <= k < b.inputs.len() implies b.valid_outlet(#[trigger] b.inputs[k])
            && b.nodes[b.inputs[k].node as int].op is Source by {
            assert(a.valid_outlet(a.inputs[k]));
            assert(b.nodes[b.inputs[k].node as int].op == a.nodes[a.inputs[k].node as int].op);
        }
        assert forall|k: int| 0 <= k < b.outputs.len() implies b.valid_outlet(
            #[trigger] b.outputs[k],
        ) by {
            assert(a.valid_outlet(a.outputs[k]));
        }
    }
    assert(b.names_ok()) by {
        assert forall|m: int, n: int|
            b.live(m) && b.live(n) && m != n implies b.nodes[m].name != b.nodes[n].name by {
            assert(b.nodes[m].name == a.nodes[m].name);
            assert(b.nodes[n].name == a.nodes[n].name);
        }
    }
    assert(b.acyclic()) by {
        let r = choose|r: Seq<nat>| a.respects_ranks(r);
        assert forall|m: int, n: int|
            0 <= m < b.nodes.len() && 0 <= n < b.nodes.len() && b.edge(m, n) implies r[m]
            < r[n] by {
            assert(b.nodes[n].inputs == a.nodes[n].inputs);
            assert(a.edge(m, n));
        }
        assert(b.respects_ranks(r));
    }
}

/// Two graphs over one arena satisfy the invariant together, given the
/// designated ports stay valid.
proof fn lemma_same_nodes_wf(a: GraphModel, b: GraphModel)
    requires
        a.wf(),
        b.nodes == a.nodes,
        b.io_ok(),
    ensures
        b.wf(),
{
    assert forall|n: int| #[trigger] b.live(n) == a.live(n) by {}
    assert forall|o: Outlet| #[trigger] b.valid_outlet(o) == a.valid_outlet(o) by {}
    assert(b.ids_ok()) by {
        assert forall|n: int| 0 <= n < b.nodes.len() implies (#[trigger] b.nodes[n]).id == n by {
            assert(a.nodes[n].id == n);
        }
    }
    assert(b.inputs_ok()) by {
        assert forall|n: int, k: int|
            b.live(n) && 0 <= k < b.nodes[n].inputs.len() implies b.valid_outlet(
            #[trigger] b.nodes[n].inputs[k],
        ) by {
            assert(a.valid_outlet(a.nodes[n].inputs[k]));
        }
    }
    assert(b.backrefs_ok()) by {
        assert forall|n: int, k: int|
            b.live(n) && 0 <= k < b.nodes[n].inputs.len() implies {
            let o = #[trigger] b.nodes[n].inputs[k];
            b.nodes[o.node as int].outputs[o.slot as int].successors.contains(
                Inlet { node: n as usize, slot: k as usize },
            )
        } by {
            assert(a.live(n));
        }
        assert forall|m: int, s: int, t: int|
            0 <= m < b.nodes.len() && 0 <= s < b.nodes[m].outputs.len() && 0 <= t < b.nodes[m].outputs[s].successors.len() implies {
            let inl = #[trigger] b.nodes[m].outputs[s].successors[t];
            &&& b.valid_inlet(inl)
            &&& b.nodes[inl.node as int].inputs[inl.slot as int] == (Outlet {
                node: m as usize,
                slot: s as usize,
            })
        } by {
            let inl = a.nodes[m].outputs[s].successors[t];
            assert(a.valid_inlet(inl));
        }
        assert forall|m: int, s: int, t1: int, t2: int|
            0 <= m < b.nodes.len() && 0 <= s < b.nodes[m].outputs.len() && 0 <= t1 < t2 < b.nodes[m].outputs[s].successors.len() implies (
        #[trigger] b.nodes[m].outputs[s].successors[t1]) != (
        #[trigger] b.nodes[m].outputs[s].successors[t2]) by {}
    }
    assert(b.removed_ok()) by {
        assert forall|n: int|
            0 <= n < b.nodes.len() && b.nodes[n].op is Removed implies ((
        #[trigger] b.nodes[n]).inputs.len() == 0 && b.nodes[n].outputs.len() == 0) by {}
    }
    assert(b.names_ok()) by {
        assert forall|m: int, n: int|
            b.live(m) && b.live(n) && m != n implies b.nodes[m].name != b.nodes[n].name by {
            assert(a.live(m) && a.live(n));
        }
    }
    assert(b.acyclic()) by {
        let r = choose|r: Seq<nat>| a.respects_ranks(r);
        assert forall|m: int, n: int|
            0 <= m < b.nodes.len() && 0 <= n < b.nodes.len() && b.edge(m, n) implies r[m]
            < r[n] by {
            assert(a.edge(m, n));
        }
        assert(b.respects_ranks(r));
    }
}

/// The model after replacing the fact on outlet `o`.
pub open spec fn with_fact(g: GraphModel, o: Outlet, f: crate::fact::FactModel) -> GraphModel {
    let node = g.nodes[o.node as int];
    GraphModel {
        nodes: g.nodes.update(
            o.node as int,
            NodeModel {
                outputs: node.outputs.update(
                    o.slot as int,
                    SlotModel { fact: f, successors: node.outputs[o.slot as int].successors },
                ),
                ..node
            },
        ),
        ..g
    }
}

/// The model after replacing the operation of node `n`.
pub open spec fn with_op(g: GraphModel, n: int, op: crate::graph::OpModel) -> GraphModel {
    GraphModel { nodes: g.nodes.update(n, NodeModel { op: op, ..g.nodes[n] }), ..g }
}

/// Outlet `o` is one of the designated inputs.
pub open spec fn is_designated_input(g: GraphModel, n: int) -> bool {
    exists|k: int| 0 <= k < g.inputs.len() && (#[trigger] g.inputs[k]).node == n
}

impl Graph {
    /// Override the fact carried by an outlet.
    pub fn set_outlet_fact(&mut self, o: Outlet, f: Fact) -> (r: Result<(), GraphError>)
        requires
            old(self)@.wf(),
        ensures
            match r {
                Ok(()) => {
                    &&& old(self)@.valid_outlet(o)
                    &&& final(self)@ == with_fact(old(self)@, o, f@)
                    &&& final(self)@.wf()
                },
                Err(e) => {
                    &&& final(self)@ == old(self)@
                    &&& e == GraphError::InvalidOutlet
                    &&& !old(self)@.valid_outlet(o)
                },
            },
    {
        if !outlet_ok(self, o) {
            return Err(GraphError::InvalidOutlet);
        }
        let ghost old_model = self@;
        let rebuilt = {
            let node = &self.nodes[o.node];
            let mut outputs: Vec<OutputSlot> = Vec::new();
            let mut t: usize = 0;
            while t < node.outputs.len()
                invariant
                    t <= node.outputs.len(),
                    outputs.len() == t,
                    node == &self.nodes[o.node as int],
                    o.node < self.nodes.len(),
                    o.slot < node.outputs.len(),
                    forall|t2: int|
                        0 <= t2 < t && t2 != o.slot ==> outputs@[t2]@ == self@.nodes[o.node as int].outputs[t2],
                    forall|t2: int|
                        0 <= t2 < t && t2 == o.slot ==> outputs@[t2]@ == (SlotModel {
                            fact: f@,
                            successors: self@.nodes[o.node as int].outputs[t2].successors,
                        }),
                decreases node.outputs.len() - t,
            {
                if t == o.slot {
                    outputs.push(OutputSlot {
                        fact: f.duplicate(),
                        successors: crate::graph::clone_inlets(&node.outputs[t].successors),
                    });
                } else {
                    outputs.push(node.outputs[t].duplicate());
                }
                t += 1;
            }
            Node {
                id: node.id,
                name: node.name.clone(),
                op: node.op.duplicate(),
                inputs: crate::graph::clone_outlets(&node.inputs),
                outputs,
            }
        };
        proof {
            let target = with_fact(old_model, o, f@);
            assert(rebuilt@.outputs =~= target.nodes[o.node as int].outputs);
            assert(rebuilt@ =~= target.nodes[o.node as int]);
        }
        self.nodes.set(o.node, rebuilt);
        proof {
            let target = with_fact(old_model, o, f@);
            assert(self@.nodes =~= target.nodes);
            assert(self@ =~= target);
            lemma_facts_only_wf(old_model, self@);
        }
        Ok(())
    }

    /// Replace the operation of a live node. A designated input must stay a
    /// source, and a node cannot be turned into a tombstone here: deletion
    /// goes through a patch.
    pub fn replace_op(&mut self, n: usize, op: Op) -> (r: Result<(), GraphError>)
        requires
            old(self)@.wf(),
        ensures
            match r {
                Ok(()) => {
                    &&& old(self)@.live(n as int)
                    &&& !(op@ is Removed)
                    &&& (is_designated_input(old(self)@, n as int) ==> op@ is Source)
                    &&& final(self)@ == with_op(old(self)@, n as int, op@)
                    &&& final(self)@.wf()
                },
                Err(e) => {
                    &&& final(self)@ == old(self)@
                    &&& (e == GraphError::InvalidNode ==> !old(self)@.live(n as int))
                    &&& (e == GraphError::BadOp ==> op@ is Removed || (is_designated_input(
                        old(self)@,
                        n as int,
                    ) && !(op@ is Source)))
                    &&& (e == GraphError::InvalidNode || e == GraphError::BadOp)
                },
            },
    {
        if !(n < self.nodes.len() && !matches!(self.nodes[n].op, Op::Removed)) {
            return Err(GraphError::InvalidNode);
        }
        if matches!(op, Op::Removed) {
            return Err(GraphError::BadOp);
        }
        if !matches!(op, Op::Source) {
            proof {
                assert(!(op@ is Source));
            }
            let mut k: usize = 0;
            while k < self.inputs.len()
                invariant
                    !(op@ is Source),
                    k <= self.inputs.len(),
                    forall|k2: int| 0 <= k2 < k ==> (#[trigger] self@.inputs[k2]).node != n,
                decreases self.inputs.len() - k,
            {
                if self.inputs[k].node == n {
                    proof {
                        assert((#[trigger] self@.inputs[k as int]).node == n);
                        assert(is_designated_input(self@, n as int));
                        assert(!(op@ is Source));
                    }
                    return Err(GraphError::BadOp);
                }
                k += 1;
            }
        }
        let ghost old_model = self@;
        let node = &self.nodes[n];
        let rebuilt = {
            let mut outputs: Vec<OutputSlot> = Vec::new();
            let mut t: usize = 0;
            while t < node.outputs.len()
                invariant
                    t <= node.outputs.len(),
                    outputs.len() == t,
                    node == &self.nodes[n as int],
                    n < self.nodes.len(),
                    forall|t2: int| 0 <= t2 < t ==> outputs@[t2]@ == self@.nodes[n as int].outputs[t2],
                decreases node.outputs.len() - t,
            {
                outputs.push(node.outputs[t].duplicate());
                t += 1;
            }
            Node {
                id: node.id,
                name: node.name.clone(),
                op: op,
                inputs: crate::graph::clone_outlets(&node.inputs),
                outputs,
            }
        };
        proof {
            let target = with_op(old_model, n as int, op@);
            assert(rebuilt@.outputs =~= target.nodes[n as int].outputs);
            assert(rebuilt@ =~= target.nodes[n as int]);
        }
        self.nodes.set(n, rebuilt);
        proof {
            let target = with_op(old_model, n as int, op@);
            let c = self@;
            assert(c.nodes =~= target.nodes);
            assert(c =~= target);
            assert forall|n2: int| #[trigger] c.live(n2) == old_model.live(n2) by {
                if 0 <= n2 < old_model.nodes.len() && n2 != n {
                    assert(c.nodes[n2].op == old_model.nodes[n2].op);
                }
            }
            assert forall|o: Outlet| #[trigger] c.valid_outlet(o) == old_model.valid_outlet(o) by {
                if 0 <= o.node < old_model.nodes.len() {
                    assert(c.nodes[o.node as int].outputs.len() == old_model.nodes[o.node as int].outputs.len());
                }
            }
            assert(c.ids_ok());
            assert(c.inputs_ok()) by {
                assert forall|n2: int, k2: int|
                    c.live(n2) && 0 <= k2 < c.nodes[n2].inputs.len() implies c.valid_outlet(
                    #[trigger] c.nodes[n2].inputs[k2],
                ) by {
                    assert(c.nodes[n2].inputs == old_model.nodes[n2].inputs);
                    assert(old_model.valid_outlet(old_model.nodes[n2].inputs[k2]));
                }
            }
            assert(c.backrefs_ok()) by {
                assert forall|n2: int, k2: int|
                    c.live(n2) && 0 <= k2 < c.nodes[n2].inputs.len() implies {
                    let o = #[trigger] c.nodes[n2].inputs[k2];
                    c.nodes[o.node as int].outputs[o.slot as int].successors.contains(
                        Inlet { node: n2 as usize, slot: k2 as usize },
                    )
                } by {
                    assert(c.nodes[n2].inputs == old_model.nodes[n2].inputs);
                    let o = old_model.nodes[n2].inputs[k2];
                    assert(old_model.valid_outlet(o));
                    assert(c.nodes[o.node as int].outputs[o.slot as int].successors == old_model.nodes[o.node as int].outputs[o.slot as int].successors);
                }
                assert forall|m: int, s: int, t: int|
                    0 <= m < c.nodes.len() && 0 <= s < c.nodes[m].outputs.len() && 0 <= t < c.nodes[m].outputs[s].successors.len() implies {
                    let inl = #[trigger] c.nodes[m].outputs[s].successors[t];
                    &&& c.valid_inlet(inl)
                    &&& c.nodes[inl.node as int].inputs[inl.slot as int] == (Outlet {
                        node: m as usize,
                        slot: s as usize,
                    })
                } by {
                    assert(c.nodes[m].outputs[s].successors == old_model.nodes[m].outputs[s].successors);
                    let inl = old_model.nodes[m].outputs[s].successors[t];
                    assert(old_model.valid_inlet(inl));
                    assert(c.nodes[inl.node as int].inputs == old_model.nodes[inl.node as int].inputs);
                    assert(c.live(inl.node as int) == old_model.live(inl.node as int));
                }
                assert forall|m: int, s: int, t1: int, t2: int|
                    0 <= m < c.nodes.len() && 0 <= s < c.nodes[m].outputs.len() && 0 <= t1 < t2 < c.nodes[m].outputs[s].successors.len() implies (
                #[trigger] c.nodes[m].outputs[s].successors[t1]) != (
                #[trigger] c.nodes[m].outputs[s].successors[t2]) by {
                    assert(c.nodes[m].outputs[s].successors == old_model.nodes[m].outputs[s].successors);
                }
            }
            assert(c.removed_ok()) by {
                assert forall|n2: int|
                    0 <= n2 < c.nodes.len() && c.nodes[n2].op is Removed implies ((
                #[trigger] c.nodes[n2]).inputs.len() == 0 && c.nodes[n2].outputs.len() == 0) by {
                    assert(n2 != n);
                    assert(c.nodes[n2] == old_model.nodes[n2]);
                }
            }
            assert(c.io_ok()) by {
                assert forall|k: int| 0 <= k < c.inputs.len() implies c.valid_outlet(
                    #[trigger] c.inputs[k],
                ) && c.nodes[c.inputs[k].node as int].op is Source by {
                    assert(old_model.valid_outlet(old_model.inputs[k]));
                    if old_model.inputs[k].node == n {
                        assert(is_designated_input(old_model, n as int));
                    } else {
                        assert(c.nodes[c.inputs[k].node as int].op == old_model.nodes[old_model.inputs[k].node as int].op);
                    }
                }
                assert forall|k: int| 0 <= k < c.outputs.len() implies c.valid_outlet(
                    #[trigger] c.outputs[k],
                ) by {
                    assert(old_model.valid_outlet(old_model.outputs[k]));
                }
            }
            assert(c.names_ok()) by {
                assert forall|m: int, n2: int|
                    c.live(m) && c.live(n2) && m != n2 implies c.nodes[m].name != c.nodes[n2].name by {
                    assert(c.nodes[m].name == old_model.nodes[m].name);
                    assert(c.nodes[n2].name == old_model.nodes[n2].name);
                }
            }
            assert(c.acyclic()) by {
                let r = choose|r: Seq<nat>| old_model.respects_ranks(r);
                assert forall|m: int, n2: int|
                    0 <= m < c.nodes.len() && 0 <= n2 < c.nodes.len() && c.edge(m, n2) implies r[m]
                    < r[n2] by {
                    assert(c.nodes[n2].inputs == old_model.nodes[n2].inputs);
                    assert(old_model.edge(m, n2));
                }
                assert(c.respects_ranks(r));
            }
            assert(c.wf());
        }
        Ok(())
    }

    /// Designate the graph's inputs: each must be a valid outlet of a source
    /// node.
    pub fn set_input_outlets(&mut self, ins: Vec<Outlet>) -> (r: Result<(), GraphError>)
        requires
            old(self)@.wf(),
        ensures
            match r {
                Ok(()) => {
                    &&& forall|k: int|
                        0 <= k < ins@.len() ==> old(self)@.valid_outlet(#[trigger] ins@[k])
                            && old(self)@.nodes[ins@[k].node as int].op is Source
                    &&& final(self)@ == (GraphModel { inputs: ins@, ..old(self)@ })
                    &&& final(self)@.wf()
                },
                Err(e) => {
                    &&& final(self)@ == old(self)@
                    &&& e == GraphError::InvalidOutlet
                    &&& exists|k: int|
                        0 <= k < ins@.len() && !(old(self)@.valid_outlet(#[trigger] ins@[k])
                            && old(self)@.nodes[ins@[k].node as int].op is Source)
                },
            },
    {
        let mut k: usize = 0;
        while k < ins.len()
            invariant
                k <= ins.len(),
                self@.wf(),
                forall|k2: int|
                    0 <= k2 < k ==> self@.valid_outlet(#[trigger] ins@[k2])
                        && self@.nodes[ins@[k2].node as int].op is Source,
            decreases ins.len() - k,
        {
            let o = ins[k];
            if !outlet_ok(self, o) || !matches!(self.nodes[o.node].op, Op::Source) {
                proof {
                    assert(!(self@.valid_outlet(ins@[k as int])
                        && self@.nodes[ins@[k as int].node as int].op is Source));
                }
                return Err(GraphError::InvalidOutlet);
            }
            k += 1;
        }
        let ghost old_model = self@;
        self.inputs = ins;
        proof {
            assert(self@ =~= (GraphModel { inputs: ins@, ..old_model }));
            assert(self@.io_ok()) by {
                assert forall|k2: int| 0 <= k2 < self@.inputs.len() implies self@.valid_outlet(
                    #[trigger] self@.inputs[k2],
                ) && self@.nodes[self@.inputs[k2].node as int].op is Source by {
                    assert(self@.inputs[k2] == ins@[k2]);
                }
                assert forall|k2: int| 0 <= k2 < self@.outputs.len() implies self@.valid_outlet(
                    #[trigger] self@.outputs[k2],
                ) by {
                    assert(old_model.valid_outlet(old_model.outputs[k2]));
                }
            }
            lemma_same_nodes_wf(old_model, self@);
        }
        Ok(())
    }

    /// Designate the graph's outputs: each must be a valid outlet.
    pub fn set_output_outlets(&mut self, outs: Vec<Outlet>) -> (r: Result<(), GraphError>)
        requires
            old(self)@.wf(),
        ensures
            match r {
                Ok(()) => {
                    &&& forall|k: int|
                        0 <= k < outs@.len() ==> old(self)@.valid_outlet(#[trigger] outs@[k])
                    &&& final(self)@ == (GraphModel { outputs: outs@, ..old(self)@ })
                    &&& final(self)@.wf()
                },
                Err(e) => {
                    &&& final(self)@ == old(self)@
                    &&& e == GraphError::InvalidOutlet
                    &&& exists|k: int| 0 <= k < outs@.len() && !old(self)@.valid_outlet(#[trigger] outs@[k])
                },
            },
    {
        let mut k: usize = 0;
        while k < outs.len()
            invariant
                k <= outs.len(),
                self@.wf(),
                forall|k2: int| 0 <= k2 < k ==> self@.valid_outlet(#[trigger] outs@[k2]),
            decreases outs.len() - k,
        {
            if !outlet_ok(self, outs[k]) {
                proof {
                    assert(!self@.valid_outlet(outs@[k as int]));
                }
                return Err(GraphError::InvalidOutlet);
            }
            k += 1;
        }
        let ghost old_model = self@;
        self.outputs = outs;
        proof {
            assert(self@ =~= (GraphModel { outputs: outs@, ..old_model }));
            assert(self@.io_ok()) by {
                assert forall|k2: int| 0 <= k2 < self@.inputs.len() implies self@.valid_outlet(
                    #[trigger] self@.inputs[k2],
                ) && self@.nodes[self@.inputs[k2].node as int].op is Source by {
                    assert(old_model.valid_outlet(old_model.inputs[k2]));
                    assert(old_model.nodes[old_model.inputs[k2].node as int].op is Source);
                }
                assert forall|k2: int| 0 <= k2 < self@.outputs.len() implies self@.valid_outlet(
                    #[trigger] self@.outputs[k2],
                ) by {
                    assert(self@.outputs[k2] == outs@[k2]);
                }
            }
            lemma_same_nodes_wf(old_model, self@);
        }
        Ok(())
    }
}

} // verus!

