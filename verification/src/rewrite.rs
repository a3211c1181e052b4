//! The rewrite passes: incorporation of decomposed idioms, decluttering to a
//! canonical minimal form, and strategy selection for the optimizer.
//!
//! Every rule builds a patch and the engine applies it through
//! `Patch::apply`, so all mutation stays behind the one atomic primitive.
//! Rules fire in node-id order, first match wins, and each firing strictly
//! shrinks a weight on the graph, which bounds the fixed point.

use vstd::prelude::*;

use crate::analyse::sem_wf;
use crate::fact::{Dim, DatumType, Fact, FactModel, fixed_dims, Tensor};
use crate::graph::{Graph, GraphModel, NodeModel, Op, OpModel, Outlet};
use crate::ops::{full_fact, mapped_tensor};
use crate::patch::{
    candidate, patch_error_of, Patch, PatchError, PatchModel, PatchNodeModel, PatchSource, Shunt,
};

verus! {

/// Why a rewrite pass stopped.
#[derive(Clone, Copy, PartialEq, Eq, Structural, Debug)]
pub enum RewriteError {
    /// A rule built a patch its own graph rejected: a bug in the rule; the
    /// graph at that point is discarded by the driver.
    Patch(PatchError),
    /// A rule's patch failed to shrink the graph, or would grow the arena
    /// past what the machine can index: equally a bug in a rule.
    Stalled,
}

/// How far an operation is from canonical form. Every declutter rule
/// strictly lowers the total weight, which bounds the fixed point.
pub open spec fn op_weight(op: OpModel) -> nat {
    match op {
        OpModel::Removed => 0,
        OpModel::Source => 1,
        OpModel::Const(_) => 1,
        OpModel::Identity => 2,
        OpModel::AddConst(_) => 3,
        OpModel::MulConst(_) => 3,
        OpModel::SlidingSum { .. } => 3,
        OpModel::PulsedSlidingSum { .. } => 3,
        OpModel::LinearKernel { .. } => 3,
        OpModel::Affine { .. } => 4,
    }
}

/// Total weight of the first `k` nodes.
pub open spec fn weight_upto(ns: Seq<NodeModel>, k: int) -> nat
    decreases k,
{
    if k <= 0 {
        0
    } else {
        weight_upto(ns, k - 1) + op_weight(ns[k - 1].op)
    }
}

/// Total weight of a graph: the rewrite passes' termination measure.
pub open spec fn weight_sum(g: GraphModel) -> nat {
    weight_upto(g.nodes, g.nodes.len() as int)
}

/// The externally observable description of one designated port: its node's
/// name, and the type and shape of its fact.
pub ghost struct PortSig {
    pub name: Seq<char>,
    pub dt: Option<DatumType>,
    pub shape: Option<Seq<Dim>>,
}

pub open spec fn port_sig(g: GraphModel, o: Outlet) -> PortSig {
    PortSig {
        name: g.nodes[o.node as int].name,
        dt: g.nodes[o.node as int].outputs[o.slot as int].fact.dt,
        shape: g.nodes[o.node as int].outputs[o.slot as int].fact.shape,
    }
}

/// The fact signature of the graph: the ordered (name, type, shape) lists of
/// its designated inputs and outputs. Decluttering and optimization preserve
/// it exactly.
pub open spec fn io_sig(g: GraphModel) -> (Seq<PortSig>, Seq<PortSig>) {
    (
        g.inputs.map_values(|o: Outlet| port_sig(g, o)),
        g.outputs.map_values(|o: Outlet| port_sig(g, o)),
    )
}

/// A designated port lives on node `n`.
pub open spec fn io_touches(g: GraphModel, n: int) -> bool {
    ||| exists|k: int| 0 <= k < g.inputs.len() && (#[trigger] g.inputs[k]).node == n
    ||| exists|k: int| 0 <= k < g.outputs.len() && (#[trigger] g.outputs[k]).node == n
}

/// No inlet reads any slot of node `n`.
pub open spec fn no_successors(g: GraphModel, n: int) -> bool {
    forall|s: int|
        0 <= s < g.nodes[n].outputs.len() ==> (#[trigger] g.nodes[n].outputs[s]).successors.len()
            == 0
}

/// The node has exactly one input and one output slot.
pub open spec fn unary_shape(g: GraphModel, n: int) -> bool {
    g.nodes[n].inputs.len() == 1 && g.nodes[n].outputs.len() == 1
}

/// The fact on the outlet feeding node `n`.
pub open spec fn in_fact(g: GraphModel, n: int) -> FactModel {
    let o = g.nodes[n].inputs[0];
    g.nodes[o.node as int].outputs[o.slot as int].fact
}

/// The fact on node `n`'s own outlet.
pub open spec fn out_fact(g: GraphModel, n: int) -> FactModel {
    g.nodes[n].outputs[0].fact
}

/// Dead-branch pruning applies: the node is live, feeds nothing, and holds
/// no designated port.
pub open spec fn rule_prune(g: GraphModel, n: int) -> bool {
    &&& g.live(n)
    &&& no_successors(g, n)
    &&& !io_touches(g, n)
}

/// Identity elision applies: the identity's readers can read its input
/// directly. A designated port pins the node in place.
pub open spec fn rule_elide(g: GraphModel, n: int) -> bool {
    &&& g.live(n)
    &&& g.nodes[n].op is Identity
    &&& unary_shape(g, n)
    &&& !io_touches(g, n)
}

/// Algebraic simplification applies: the operation is a unit of its family
/// and degenerates to the identity.
pub open spec fn rule_unit(g: GraphModel, n: int) -> bool {
    &&& g.live(n)
    &&& unary_shape(g, n)
    &&& {
        ||| g.nodes[n].op == OpModel::AddConst(0i64)
        ||| g.nodes[n].op == OpModel::MulConst(1i64)
        ||| g.nodes[n].op == (OpModel::Affine { mul: 1i64, add: 0i64 })
    }
}

/// Constant folding applies: an element-wise arithmetic operation whose
/// input value is known, and whose outlet fact already carries the type and
/// shape the folded constant will have.
pub open spec fn rule_fold(g: GraphModel, n: int) -> bool {
    &&& g.live(n)
    &&& unary_shape(g, n)
    &&& {
        ||| g.nodes[n].op matches OpModel::AddConst(_)
        ||| g.nodes[n].op matches OpModel::MulConst(_)
        ||| g.nodes[n].op matches OpModel::Affine { .. }
        ||| g.nodes[n].op matches OpModel::LinearKernel { .. }
    }
    &&& in_fact(g, n).value is Some
    &&& out_fact(g, n).dt == Some(mapped_tensor(g.nodes[n].op, in_fact(g, n).value->Some_0).dt)
    &&& out_fact(g, n).shape == Some(
        fixed_dims(mapped_tensor(g.nodes[n].op, in_fact(g, n).value->Some_0).shape),
    )
}

/// Incorporation applies at `n`: an add-constant fed exclusively by a
/// mul-constant, the decomposed form of the canonical affine map.
pub open spec fn rule_fuse(g: GraphModel, n: int) -> bool {
    &&& g.live(n)
    &&& unary_shape(g, n)
    &&& g.nodes[n].op matches OpModel::AddConst(_)
    &&& {
        let m = g.nodes[n].inputs[0].node as int;
        &&& g.nodes[n].inputs[0].slot == 0
        &&& g.nodes[m].op matches OpModel::MulConst(_)
        &&& unary_shape(g, m)
        &&& g.nodes[m].outputs[0].successors.len() == 1
        &&& !io_touches(g, m)
    }
}

/// Strategy selection applies: an affine map over a fully concrete fact gets
/// its concrete kernel.
pub open spec fn rule_kernel(g: GraphModel, n: int) -> bool {
    &&& g.live(n)
    &&& unary_shape(g, n)
    &&& g.nodes[n].op matches OpModel::Affine { .. }
    &&& out_fact(g, n).concrete()
}

/// The patch dead-branch pruning builds.
pub open spec fn patch_prune(g: GraphModel, n: int) -> PatchModel {
    PatchModel {
        taps: Seq::empty(),
        nodes: Seq::empty(),
        shunts: Seq::empty(),
        dels: seq![n as usize],
    }
}

/// The patch identity elision builds: readers of the identity are shunted
/// onto its input, and the node is retired.
pub open spec fn patch_elide(g: GraphModel, n: int) -> PatchModel {
    PatchModel {
        taps: seq![g.nodes[n].inputs[0]],
        nodes: Seq::empty(),
        shunts: seq![
            Shunt {
                old: Outlet { node: n as usize, slot: 0 },
                new: PatchSource::Tap(0),
            },
        ],
        dels: seq![n as usize],
    }
}

/// The patch that replaces node `n` with a single fresh node of the same
/// name carrying `op` and `fact`, rewiring `n`'s readers onto it. With
/// `keep_input` the new node reads `n`'s input; otherwise it is a leaf.
pub open spec fn patch_replace(
    g: GraphModel,
    n: int,
    op: OpModel,
    fact: FactModel,
    keep_input: bool,
) -> PatchModel {
    PatchModel {
        taps: if keep_input {
            seq![g.nodes[n].inputs[0]]
        } else {
            Seq::empty()
        },
        nodes: seq![
            PatchNodeModel {
                name: g.nodes[n].name,
                op: op,
                inputs: if keep_input {
                    seq![PatchSource::Tap(0)]
                } else {
                    Seq::empty()
                },
                out_facts: seq![fact],
            },
        ],
        shunts: seq![
            Shunt {
                old: Outlet { node: n as usize, slot: 0 },
                new: PatchSource::Local(0, 0),
            },
        ],
        dels: seq![n as usize],
    }
}

/// The patch incorporation builds: the fused affine map replaces the pair,
/// reading what the mul-constant read.
pub open spec fn patch_fuse(g: GraphModel, n: int) -> PatchModel {
    let m = g.nodes[n].inputs[0].node as int;
    let mul = match g.nodes[m].op {
        OpModel::MulConst(c) => c,
        _ => 0i64,
    };
    let add = match g.nodes[n].op {
        OpModel::AddConst(c) => c,
        _ => 0i64,
    };
    PatchModel {
        taps: seq![g.nodes[m].inputs[0]],
        nodes: seq![
            PatchNodeModel {
                name: g.nodes[n].name,
                op: (OpModel::Affine { mul: mul, add: add }),
                inputs: seq![PatchSource::Tap(0)],
                out_facts: seq![out_fact(g, n)],
            },
        ],
        shunts: seq![
            Shunt {
                old: Outlet { node: n as usize, slot: 0 },
                new: PatchSource::Local(0, 0),
            },
        ],
        dels: seq![n as usize, m as usize],
    }
}

/// Which rule catalogue a pass runs.
#[derive(Clone, Copy, PartialEq, Eq, Structural, Debug)]
pub enum Catalogue {
    /// Constant folding, identity elision, unit simplification, dead-branch
    /// pruning.
    Declutter,
    /// Concrete strategy selection.
    Optimize,
}

/// The first rule of the catalogue that fires at node `n`, and its patch.
pub open spec fn rule_at(cat: Catalogue, g: GraphModel, n: int) -> Option<PatchModel> {
    match cat {
        Catalogue::Declutter => {
            if rule_prune(g, n) {
                Some(patch_prune(g, n))
            } else if rule_elide(g, n) {
                Some(patch_elide(g, n))
            } else if rule_unit(g, n) {
                Some(patch_replace(g, n, OpModel::Identity, out_fact(g, n), true))
            } else if rule_fold(g, n) {
                let t = mapped_tensor(g.nodes[n].op, in_fact(g, n).value->Some_0);
                Some(patch_replace(g, n, OpModel::Const(t), full_fact(t), false))
            } else {
                None
            }
        },
        Catalogue::Optimize => {
            if rule_kernel(g, n) {
                let op = g.nodes[n].op;
                let k = match op {
                    OpModel::Affine { mul, add } => (OpModel::LinearKernel { mul: mul, add: add }),
                    _ => OpModel::Identity,
                };
                Some(patch_replace(g, n, k, out_fact(g, n), true))
            } else {
                None
            }
        },
    }
}

/// The first node, from `n` up, where the catalogue fires.
pub open spec fn first_rule(cat: Catalogue, g: GraphModel, n: int) -> Option<(int, PatchModel)>
    decreases g.nodes.len() - n,
{
    if n < 0 || n >= g.nodes.len() {
        None
    } else {
        match rule_at(cat, g, n) {
            Some(p) => Some((n, p)),
            None => first_rule(cat, g, n + 1),
        }
    }
}

/// What a rewrite pass computes: rules are applied in node order, first
/// match first, until none fires (the fixed point), every edit going through
/// `Patch::apply`.
pub open spec fn rewrite_spec(cat: Catalogue, g: GraphModel) -> Result<GraphModel, RewriteError>
    decreases weight_sum(g),
{
    match first_rule(cat, g, 0) {
        None => Ok(g),
        Some((n, p)) => {
            if g.nodes.len() + p.nodes.len() > usize::MAX {
                Err(RewriteError::Stalled)
            } else {
                match patch_error_of(g, p) {
                    Some(e) => Err(RewriteError::Patch(e)),
                    None => {
                        let g2 = candidate(g, p);
                        if weight_sum(g2) < weight_sum(g) {
                            rewrite_spec(cat, g2)
                        } else {
                            Err(RewriteError::Stalled)
                        }
                    },
                }
            }
        },
    }
}

/// A finished rewrite is a fixed point: running the pass again changes
/// nothing. For the declutter catalogue this is the decluttering idempotence
/// law.
pub proof fn lemma_rewrite_fixpoint(cat: Catalogue, g: GraphModel)
    ensures
        rewrite_spec(cat, g) matches Ok(h) ==> {
            &&& first_rule(cat, h, 0) is None
            &&& rewrite_spec(cat, h) == Ok::<GraphModel, RewriteError>(h)
        },
    decreases weight_sum(g),
{
    match first_rule(cat, g, 0) {
        None => {},
        Some((n, p)) => {
            if g.nodes.len() + p.nodes.len() <= usize::MAX && patch_error_of(g, p) is None {
                let g2 = candidate(g, p);
                if weight_sum(g2) < weight_sum(g) {
                    lemma_rewrite_fixpoint(cat, g2);
                }
            }
        },
    }
}


/// Pointwise bounded weights bound the sum, with a strict gap of `d` at one
/// index.
proof fn lemma_weight_drop1(a: Seq<NodeModel>, b: Seq<NodeModel>, k: int, j: int, d: nat)
    requires
        0 <= j < k,
        k <= a.len(),
        k <= b.len(),
        forall|i: int| 0 <= i < k ==> op_weight((#[trigger] a[i]).op) <= op_weight(b[i].op),
        op_weight(a[j].op) + d <= op_weight(b[j].op),
    ensures
        weight_upto(a, k) + d <= weight_upto(b, k),
    decreases k,
{
    if j == k - 1 {
        lemma_weight_le(a, b, k - 1);
    } else {
        lemma_weight_drop1(a, b, k - 1, j, d);
    }
}

/// Two strict gaps.
proof fn lemma_weight_drop2(a: Seq<NodeModel>, b: Seq<NodeModel>, k: int, j1: int, d1: nat, j2: int, d2: nat)
    requires
        0 <= j1 < k,
        0 <= j2 < k,
        j1 != j2,
        k <= a.len(),
        k <= b.len(),
        forall|i: int| 0 <= i < k ==> op_weight((#[trigger] a[i]).op) <= op_weight(b[i].op),
        op_weight(a[j1].op) + d1 <= op_weight(b[j1].op),
        op_weight(a[j2].op) + d2 <= op_weight(b[j2].op),
    ensures
        weight_upto(a, k) + d1 + d2 <= weight_upto(b, k),
    decreases k,
{
    if j1 == k - 1 {
        lemma_weight_drop1(a, b, k - 1, j2, d2);
    } else if j2 == k - 1 {
        lemma_weight_drop1(a, b, k - 1, j1, d1);
    } else {
        lemma_weight_drop2(a, b, k - 1, j1, d1, j2, d2);
    }
}

/// Pointwise bounded weights bound the sum.
proof fn lemma_weight_le(a: Seq<NodeModel>, b: Seq<NodeModel>, k: int)
    requires
        k <= a.len(),
        k <= b.len(),
        forall|i: int| 0 <= i < k ==> op_weight((#[trigger] a[i]).op) <= op_weight(b[i].op),
    ensures
        weight_upto(a, k) <= weight_upto(b, k),
    decreases k,
{
    if k > 0 {
        lemma_weight_le(a, b, k - 1);
    }
}

/// Every rule's patch strictly shrinks the graph's weight.
proof fn lemma_rule_decreases(cat: Catalogue, g: GraphModel, n: int, p: PatchModel)
    requires
        g.wf(),
        0 <= n < g.nodes.len(),
        rule_at(cat, g, n) == Some(p),
    ensures
        weight_sum(candidate(g, p)) < weight_sum(g),
{
    let c = candidate(g, p);
    let pre = crate::patch::pre_nodes(g, p);
    let glen = g.nodes.len() as int;
    assert(c.nodes.len() == glen + p.nodes.len());
    assert forall|i: int| 0 <= i < c.nodes.len() implies (#[trigger] c.nodes[i]).op == pre[i].op by {}
    match cat {
        Catalogue::Declutter => {
            if rule_prune(g, n) {
                assert forall|i: int|
                    0 <= i < glen implies op_weight((#[trigger] c.nodes[i]).op) <= op_weight(
                    g.nodes[i].op,
                ) by {
                    if p.dels.contains(i as usize) {
                        assert(c.nodes[i].op is Removed);
                    } else {
                        assert(c.nodes[i].op == g.nodes[i].op);
                    }
                }
                assert(p.dels.contains(n as usize)) by {
                    assert(p.dels[0] == n as usize);
                }
                assert(op_weight(c.nodes[n].op) + 1 <= op_weight(g.nodes[n].op));
                lemma_weight_drop1(c.nodes, g.nodes, glen, n, 1);
            } else if rule_elide(g, n) {
                assert forall|i: int|
                    0 <= i < glen implies op_weight((#[trigger] c.nodes[i]).op) <= op_weight(
                    g.nodes[i].op,
                ) by {
                    if p.dels.contains(i as usize) {
                        assert(c.nodes[i].op is Removed);
                    } else {
                        assert(c.nodes[i].op == g.nodes[i].op);
                    }
                }
                assert(p.dels.contains(n as usize)) by {
                    assert(p.dels[0] == n as usize);
                }
                assert(op_weight(c.nodes[n].op) + 1 <= op_weight(g.nodes[n].op));
                lemma_weight_drop1(c.nodes, g.nodes, glen, n, 1);
            } else if rule_unit(g, n) {
                assert forall|i: int|
                    0 <= i < glen implies op_weight((#[trigger] c.nodes[i]).op) <= op_weight(
                    g.nodes[i].op,
                ) by {
                    if p.dels.contains(i as usize) {
                        assert(c.nodes[i].op is Removed);
                    } else {
                        assert(c.nodes[i].op == g.nodes[i].op);
                    }
                }
                assert(p.dels.contains(n as usize)) by {
                    assert(p.dels[0] == n as usize);
                }
                assert(op_weight(c.nodes[n].op) + 3 <= op_weight(g.nodes[n].op));
                lemma_weight_drop1(c.nodes, g.nodes, glen, n, 3);
                assert(c.nodes[glen].op is Identity);
                assert(weight_upto(c.nodes, glen + 1) == weight_upto(c.nodes, glen) + 2);
            } else {
                assert(rule_fold(g, n));
                assert forall|i: int|
                    0 <= i < glen implies op_weight((#[trigger] c.nodes[i]).op) <= op_weight(
                    g.nodes[i].op,
                ) by {
                    if p.dels.contains(i as usize) {
                        assert(c.nodes[i].op is Removed);
                    } else {
                        assert(c.nodes[i].op == g.nodes[i].op);
                    }
                }
                assert(p.dels.contains(n as usize)) by {
                    assert(p.dels[0] == n as usize);
                }
                assert(op_weight(c.nodes[n].op) + 3 <= op_weight(g.nodes[n].op));
                lemma_weight_drop1(c.nodes, g.nodes, glen, n, 3);
                assert(c.nodes[glen].op matches OpModel::Const(_));
                assert(weight_upto(c.nodes, glen + 1) == weight_upto(c.nodes, glen) + 1);
            }
        },
        Catalogue::Optimize => {
            assert(rule_kernel(g, n));
            assert forall|i: int|
                0 <= i < glen implies op_weight((#[trigger] c.nodes[i]).op) <= op_weight(
                g.nodes[i].op,
            ) by {
                if p.dels.contains(i as usize) {
                    assert(c.nodes[i].op is Removed);
                } else {
                    assert(c.nodes[i].op == g.nodes[i].op);
                }
            }
            assert(p.dels.contains(n as usize)) by {
                assert(p.dels[0] == n as usize);
            }
            assert(op_weight(c.nodes[n].op) + 4 <= op_weight(g.nodes[n].op));
            lemma_weight_drop1(c.nodes, g.nodes, glen, n, 4);
            assert(c.nodes[glen].op matches OpModel::LinearKernel { .. });
            assert(weight_upto(c.nodes, glen + 1) == weight_upto(c.nodes, glen) + 3);
        },
    }
}

/// Incorporation's patch also strictly shrinks the weight.
proof fn lemma_fuse_decreases(g: GraphModel, n: int)
    requires
        g.wf(),
        0 <= n < g.nodes.len(),
        rule_fuse(g, n),
    ensures
        weight_sum(candidate(g, patch_fuse(g, n))) < weight_sum(g),
{
    let p = patch_fuse(g, n);
    let c = candidate(g, p);
    let glen = g.nodes.len() as int;
    let m = g.nodes[n].inputs[0].node as int;
    assert(g.valid_outlet(g.nodes[n].inputs[0]));
    assert(m != n) by {
        if m == n {
            assert(g.edge(n, n));
            let r = choose|r: Seq<nat>| g.respects_ranks(r);
            assert(r[n] < r[n]);
        }
    }
    assert(c.nodes.len() == glen + 1);
    assert forall|i: int| 0 <= i < c.nodes.len() implies (#[trigger] c.nodes[i]).op == crate::patch::pre_nodes(g, p)[i].op by {}
    assert forall|i: int|
        0 <= i < glen implies op_weight((#[trigger] c.nodes[i]).op) <= op_weight(
        g.nodes[i].op,
    ) by {
        if p.dels.contains(i as usize) {
            assert(c.nodes[i].op is Removed);
        } else {
            assert(c.nodes[i].op == g.nodes[i].op);
        }
    }
    assert(p.dels.contains(n as usize)) by {
        assert(p.dels[0] == n as usize);
    }
    assert(p.dels.contains(m as usize)) by {
        assert(p.dels[1] == m as usize);
    }
    assert(op_weight(c.nodes[n].op) + 3 <= op_weight(g.nodes[n].op));
    assert(op_weight(c.nodes[m].op) + 3 <= op_weight(g.nodes[m].op));
    lemma_weight_drop2(c.nodes, g.nodes, glen, n, 3, m, 3);
    assert(c.nodes[glen].op matches OpModel::Affine { .. });
    assert(weight_upto(c.nodes, glen + 1) == weight_upto(c.nodes, glen) + 4);
}

/// A candidate built from well-formed rule facts keeps the semantic
/// invariant.
proof fn lemma_candidate_sem(g: GraphModel, p: PatchModel)
    requires
        sem_wf(g),
        forall|j: int, s: int|
            0 <= j < p.nodes.len() && 0 <= s < p.nodes[j].out_facts.len() ==> (
            #[trigger] p.nodes[j].out_facts[s]).wf(),
        forall|j: int|
            0 <= j < p.nodes.len() ==> ((#[trigger] p.nodes[j].op) matches OpModel::Const(t)
                ==> t.wf()),
    ensures
        sem_wf(candidate(g, p)),
{
    let c = candidate(g, p);
    let pre = crate::patch::pre_nodes(g, p);
    let glen = g.nodes.len() as int;
    assert forall|n: int, s: int|
        0 <= n < c.nodes.len() && 0 <= s < c.nodes[n].outputs.len() implies (
    #[trigger] c.nodes[n].outputs[s]).fact.wf() by {
        assert(c.nodes[n].outputs[s].fact == pre[n].outputs[s].fact);
        if n < glen {
            if !p.dels.contains(n as usize) {
                assert(pre[n].outputs[s].fact == g.nodes[n].outputs[s].fact);
            }
        } else {
            assert(pre[n].outputs[s].fact == p.nodes[n - glen].out_facts[s]);
        }
    }
    assert forall|n: int|
        0 <= n < c.nodes.len() implies ((#[trigger] c.nodes[n].op) matches OpModel::Const(t)
        ==> t.wf()) by {
        assert(c.nodes[n].op == pre[n].op);
        if n < glen {
            if !p.dels.contains(n as usize) {
                assert(pre[n].op == g.nodes[n].op);
            }
        } else {
            assert(pre[n].op == p.nodes[n - glen].op);
        }
    }
}


/// Ports that no rule touches keep their signature; a replaced node hands
/// its name, type and shape to its replacement. Every rule patch preserves
/// the graph's fact signature exactly.
proof fn lemma_patch_sig(g: GraphModel, p: PatchModel, n: int)
    requires
        g.wf(),
        g.nodes.len() + p.nodes.len() <= usize::MAX,
        0 <= n < g.nodes.len(),
        ({
            ||| (rule_prune(g, n) && p == patch_prune(g, n))
            ||| (rule_elide(g, n) && p == patch_elide(g, n))
            ||| (rule_unit(g, n) && p == patch_replace(g, n, OpModel::Identity, out_fact(g, n), true))
            ||| (rule_fold(g, n) && p == patch_replace(
                g,
                n,
                OpModel::Const(mapped_tensor(g.nodes[n].op, in_fact(g, n).value->Some_0)),
                full_fact(mapped_tensor(g.nodes[n].op, in_fact(g, n).value->Some_0)),
                false,
            ))
            ||| (rule_kernel(g, n) && p == patch_replace(
                g,
                n,
                match g.nodes[n].op {
                    OpModel::Affine { mul, add } => (OpModel::LinearKernel { mul: mul, add: add }),
                    _ => OpModel::Identity,
                },
                out_fact(g, n),
                true,
            ))
            ||| (rule_fuse(g, n) && p == patch_fuse(g, n))
        }),
    ensures
        io_sig(candidate(g, p)) == io_sig(g),
{
    let c = candidate(g, p);
    let glen = g.nodes.len() as int;
    let pre = crate::patch::pre_nodes(g, p);
    assert forall|i: int| 0 <= i < c.nodes.len() implies {
        let a = #[trigger] c.nodes[i];
        a.name == pre[i].name && a.op == pre[i].op && a.outputs.len() == pre[i].outputs.len()
    } by {}
    assert forall|i: int, s: int|
        0 <= i < c.nodes.len() && 0 <= s < c.nodes[i].outputs.len() implies (
    #[trigger] c.nodes[i].outputs[s]).fact == pre[i].outputs[s].fact by {}
    // designated inputs read source nodes, which no rule touches.
    assert forall|k: int|
        0 <= k < c.inputs.len() implies port_sig(c, #[trigger] c.inputs[k]) == port_sig(
        g,
        g.inputs[k],
    ) by {
        let o = g.inputs[k];
        assert(g.valid_outlet(o));
        assert(g.nodes[o.node as int].op is Source);
        assert(!p.dels.contains(o.node)) by {
            if rule_fuse(g, n) && p == patch_fuse(g, n) {
                let m = g.nodes[n].inputs[0].node;
                assert(p.dels =~= seq![n as usize, m as usize]);
                if o.node == n as usize || o.node == m {
                    assert(false);
                }
            } else {
                assert(p.dels =~= seq![n as usize]);
                if o.node == n as usize {
                    if rule_prune(g, n) || rule_elide(g, n) {
                        assert(io_touches(g, n));
                    } else {
                        assert(!(g.nodes[n].op is Source));
                    }
                    assert(false);
                }
            }
        }
        assert(pre[o.node as int].name == g.nodes[o.node as int].name);
        assert(pre[o.node as int].outputs[o.slot as int].fact == g.nodes[o.node as int].outputs[o.slot as int].fact);
    }
    assert(c.inputs =~= g.inputs);
    // designated outputs either stay or are redirected onto the replacement,
    // which carries the same name, type and shape.
    assert forall|k: int|
        0 <= k < c.outputs.len() implies port_sig(c, #[trigger] c.outputs[k]) == port_sig(
        g,
        g.outputs[k],
    ) by {
        let o = g.outputs[k];
        assert(g.valid_outlet(o));
        assert(c.outputs[k] == crate::patch::resolve_shunt(g, p, o));
        if rule_prune(g, n) && p == patch_prune(g, n) {
            assert(c.outputs[k] == o);
            assert(o.node != n as usize) by {
                if o.node == n as usize {
                    assert(io_touches(g, n));
                }
            }
            assert(!p.dels.contains(o.node));
            assert(pre[o.node as int].name == g.nodes[o.node as int].name);
            assert(pre[o.node as int].outputs[o.slot as int].fact == g.nodes[o.node as int].outputs[o.slot as int].fact);
        } else if rule_elide(g, n) && p == patch_elide(g, n) {
            assert(o.node != n as usize) by {
                if o.node == n as usize {
                    assert(io_touches(g, n));
                }
            }
            assert(o != (Outlet { node: n as usize, slot: 0 }));
            assert(crate::patch::resolve_shunt_from(g, p, o, 1) == o);
            assert(c.outputs[k] == o);
            assert(!p.dels.contains(o.node));
            assert(pre[o.node as int].name == g.nodes[o.node as int].name);
            assert(pre[o.node as int].outputs[o.slot as int].fact == g.nodes[o.node as int].outputs[o.slot as int].fact);
        } else if rule_fuse(g, n) && p == patch_fuse(g, n) {
            let m = g.nodes[n].inputs[0].node;
            assert(o.node != m) by {
                if o.node == m {
                    assert(io_touches(g, m as int));
                }
            }
            if o == (Outlet { node: n as usize, slot: 0 }) {
                assert(c.outputs[k] == (Outlet { node: glen as usize, slot: 0 }));
                assert(pre[glen].name == g.nodes[n].name);
                assert(pre[glen].outputs[0].fact == out_fact(g, n));
            } else {
                assert(o.node != n as usize || o.slot != 0);
                if o.node == n as usize {
                    assert(o.slot < g.nodes[n].outputs.len());
                    assert(false);
                }
                assert(crate::patch::resolve_shunt_from(g, p, o, 1) == o);
                assert(c.outputs[k] == o);
                assert(!p.dels.contains(o.node));
                assert(pre[o.node as int].name == g.nodes[o.node as int].name);
                assert(pre[o.node as int].outputs[o.slot as int].fact == g.nodes[o.node as int].outputs[o.slot as int].fact);
            }
        } else {
            // one of the replacement rules
            if o == (Outlet { node: n as usize, slot: 0 }) {
                assert(c.outputs[k] == (Outlet { node: glen as usize, slot: 0 }));
                assert(pre[glen].name == g.nodes[n].name);
                if rule_unit(g, n) && p == patch_replace(g, n, OpModel::Identity, out_fact(g, n), true) {
                    assert(pre[glen].outputs[0].fact == out_fact(g, n));
                } else if rule_kernel(g, n) && p == patch_replace(
                    g,
                    n,
                    match g.nodes[n].op {
                        OpModel::Affine { mul, add } => (OpModel::LinearKernel {
                            mul: mul,
                            add: add,
                        }),
                        _ => OpModel::Identity,
                    },
                    out_fact(g, n),
                    true,
                ) {
                    assert(pre[glen].outputs[0].fact == out_fact(g, n));
                } else {
                    let t = mapped_tensor(g.nodes[n].op, in_fact(g, n).value->Some_0);
                    assert(pre[glen].outputs[0].fact == full_fact(t));
                    assert(full_fact(t).dt == out_fact(g, n).dt);
                    assert(full_fact(t).shape == out_fact(g, n).shape);
                }
            } else {
                if o.node == n as usize {
                    assert(o.slot < g.nodes[n].outputs.len());
                    assert(g.nodes[n].outputs.len() == 1);
                    assert(false);
                }
                assert(crate::patch::resolve_shunt_from(g, p, o, 1) == o);
                assert(c.outputs[k] == o);
                assert(!p.dels.contains(o.node));
                assert(pre[o.node as int].name == g.nodes[o.node as int].name);
                assert(pre[o.node as int].outputs[o.slot as int].fact == g.nodes[o.node as int].outputs[o.slot as int].fact);
            }
        }
    }
    assert(io_sig(c).0 =~= io_sig(g).0);
    assert(io_sig(c).1 =~= io_sig(g).1);
    assert(io_sig(c) == io_sig(g));
}


/// Runtime form of `io_touches`.
fn io_touches_exec(g: &Graph, n: usize) -> (r: bool)
    ensures
        r == io_touches(g@, n as int),
{
    let mut k: usize = 0;
    while k < g.inputs.len()
        invariant
            k <= g.inputs.len(),
            forall|k2: int| 0 <= k2 < k ==> (#[trigger] g@.inputs[k2]).node != n,
        decreases g.inputs.len() - k,
    {
        if g.inputs[k].node == n {
            proof {
                assert((#[trigger] g@.inputs[k as int]).node == n);
            }
            return true;
        }
        k += 1;
    }
    let mut k2: usize = 0;
    while k2 < g.outputs.len()
        invariant
            k2 <= g.outputs.len(),
            forall|j2: int| 0 <= j2 < g.inputs.len() ==> (#[trigger] g@.inputs[j2]).node != n,
            forall|j2: int| 0 <= j2 < k2 ==> (#[trigger] g@.outputs[j2]).node != n,
        decreases g.outputs.len() - k2,
    {
        if g.outputs[k2].node == n {
            proof {
                assert((#[trigger] g@.outputs[k2 as int]).node == n);
            }
            return true;
        }
        k2 += 1;
    }
    false
}

/// Runtime form of `no_successors`.
fn no_successors_exec(g: &Graph, n: usize) -> (r: bool)
    requires
        n < g.nodes.len(),
    ensures
        r == no_successors(g@, n as int),
{
    let node = &g.nodes[n];
    let mut s: usize = 0;
    while s < node.outputs.len()
        invariant
            s <= node.outputs.len(),
            node == &g.nodes[n as int],
            n < g.nodes.len(),
            forall|s2: int|
                0 <= s2 < s ==> (#[trigger] g@.nodes[n as int].outputs[s2]).successors.len() == 0,
        decreases node.outputs.len() - s,
    {
        if node.outputs[s].successors.len() != 0 {
            proof {
                assert(g@.nodes[n as int].outputs[s as int].successors.len() != 0);
            }
            return false;
        }
        s += 1;
    }
    true
}

/// Runtime form of `FactModel::concrete`.
pub fn fact_concrete_exec(f: &Fact) -> (r: bool)
    ensures
        r == f@.concrete(),
{
    if f.dt.is_none() {
        return false;
    }
    match &f.shape {
        None => false,
        Some(s) => {
            let mut i: usize = 0;
            while i < s.len()
                invariant
                    i <= s.len(),
                    f@.shape == Some(s@),
                    f@.dt is Some,
                    forall|j: int| 0 <= j < i ==> s@[j] is Fixed,
                decreases s.len() - i,
            {
                if matches!(s[i], Dim::Stream) {
                    proof {
                        assert(!(s@[i as int] is Fixed));
                    }
                    return false;
                }
                i += 1;
            }
            true
        },
    }
}

/// Build the replacement patch: one fresh node under the old name, carrying
/// `op` and `fact`, shunted in for node `n`.
fn make_patch_replace(g: &Graph, n: usize, op: Op, fact: Fact, keep_input: bool) -> (r: Patch)
    requires
        n < g.nodes.len(),
        keep_input ==> g@.nodes[n as int].inputs.len() >= 1,
    ensures
        r@ == patch_replace(g@, n as int, op@, fact@, keep_input),
        !(op@ is Removed) ==> forall|j: int|
            0 <= j < r@.nodes.len() ==> !((#[trigger] r@.nodes[j]).op is Removed),
{
    let mut taps: Vec<Outlet> = Vec::new();
    let mut inputs: Vec<PatchSource> = Vec::new();
    if keep_input {
        taps.push(g.nodes[n].inputs[0]);
        inputs.push(PatchSource::Tap(0));
    }
    let mut out_facts: Vec<Fact> = Vec::new();
    out_facts.push(fact);
    let mut nodes: Vec<crate::patch::PatchNode> = Vec::new();
    nodes.push(crate::patch::PatchNode { name: g.nodes[n].name.clone(), op, inputs, out_facts });
    let mut shunts: Vec<Shunt> = Vec::new();
    shunts.push(Shunt { old: Outlet { node: n, slot: 0 }, new: PatchSource::Local(0, 0) });
    let mut dels: Vec<usize> = Vec::new();
    dels.push(n);
    let r = Patch { taps, nodes, shunts, dels };
    proof {
        let target = patch_replace(g@, n as int, op@, fact@, keep_input);
        assert(r@.nodes[0].inputs =~= target.nodes[0].inputs);
        assert(r@.nodes[0].out_facts =~= target.nodes[0].out_facts);
        assert(r@.nodes[0] =~= target.nodes[0]);
        assert(r@.nodes =~= target.nodes);
        assert(r@.taps =~= target.taps);
        assert(r@.shunts =~= target.shunts);
        assert(r@.dels =~= target.dels);
        assert(r@ =~= target);
    }
    r
}

/// Build the fusion patch for `rule_fuse` at node `n`.
fn make_patch_fuse(g: &Graph, n: usize, mul: i64, add: i64) -> (r: Patch)
    requires
        n < g.nodes.len(),
        g@.nodes[n as int].inputs.len() >= 1,
        g@.nodes[n as int].outputs.len() >= 1,
        g@.nodes[n as int].inputs[0].node < g.nodes.len(),
        g@.nodes[g@.nodes[n as int].inputs[0].node as int].inputs.len() >= 1,
        g@.nodes[n as int].op == OpModel::AddConst(add),
        g@.nodes[g@.nodes[n as int].inputs[0].node as int].op == OpModel::MulConst(mul),
    ensures
        r@ == patch_fuse(g@, n as int),
{
    let m = g.nodes[n].inputs[0].node;
    let mut taps: Vec<Outlet> = Vec::new();
    taps.push(g.nodes[m].inputs[0]);
    let mut inputs: Vec<PatchSource> = Vec::new();
    inputs.push(PatchSource::Tap(0));
    let mut out_facts: Vec<Fact> = Vec::new();
    out_facts.push(g.nodes[n].outputs[0].fact.duplicate());
    let mut nodes: Vec<crate::patch::PatchNode> = Vec::new();
    nodes.push(crate::patch::PatchNode {
        name: g.nodes[n].name.clone(),
        op: Op::Affine { mul, add },
        inputs,
        out_facts,
    });
    let mut shunts: Vec<Shunt> = Vec::new();
    shunts.push(Shunt { old: Outlet { node: n, slot: 0 }, new: PatchSource::Local(0, 0) });
    let mut dels: Vec<usize> = Vec::new();
    dels.push(n);
    dels.push(m);
    let r = Patch { taps, nodes, shunts, dels };
    proof {
        let target = patch_fuse(g@, n as int);
        assert(r@.nodes[0].inputs =~= target.nodes[0].inputs);
        assert(r@.nodes[0].out_facts =~= target.nodes[0].out_facts);
        assert(r@.nodes[0] =~= target.nodes[0]);
        assert(r@.nodes =~= target.nodes);
        assert(r@.taps =~= target.taps);
        assert(r@.shunts =~= target.shunts);
        assert(r@.dels =~= target.dels);
        assert(r@ =~= target);
    }
    r
}

/// Match the catalogue's rules at node `n`, in order, and build the winning
/// rule's patch.
fn build_rule_patch(cat: Catalogue, g: &Graph, n: usize) -> (r: Option<Patch>)
    requires
        g@.wf(),
        sem_wf(g@),
        n < g.nodes.len(),
    ensures
        match r {
            Some(p) => {
                &&& rule_at(cat, g@, n as int) == Some(p@)
                &&& forall|j: int|
                    0 <= j < p@.nodes.len() ==> !((#[trigger] p@.nodes[j]).op is Removed)
                &&& forall|j: int, s: int|
                    0 <= j < p@.nodes.len() && 0 <= s < p@.nodes[j].out_facts.len() ==> (
                    #[trigger] p@.nodes[j].out_facts[s]).wf()
                &&& forall|j: int|
                    0 <= j < p@.nodes.len() ==> ((#[trigger] p@.nodes[j].op)
                        matches OpModel::Const(t) ==> t.wf())
            },
            None => rule_at(cat, g@, n as int) is None,
        },
{
    let live = !matches!(g.nodes[n].op, Op::Removed);
    if !live {
        proof {
            assert(!g@.live(n as int));
        }
        return None;
    }
    let unary = g.nodes[n].inputs.len() == 1 && g.nodes[n].outputs.len() == 1;
    match cat {
        Catalogue::Declutter => {
            // dead-branch pruning
            if no_successors_exec(g, n) && !io_touches_exec(g, n) {
                proof {
                    assert(rule_prune(g@, n as int));
                }
                let mut dels: Vec<usize> = Vec::new();
                dels.push(n);
                let p = Patch { taps: Vec::new(), nodes: Vec::new(), shunts: Vec::new(), dels };
                proof {
                    assert(p@.dels =~= patch_prune(g@, n as int).dels);
                    assert(p@.taps =~= patch_prune(g@, n as int).taps);
                    assert(p@.nodes =~= patch_prune(g@, n as int).nodes);
                    assert(p@.shunts =~= patch_prune(g@, n as int).shunts);
                    assert(p@ =~= patch_prune(g@, n as int));
                }
                return Some(p);
            }
            // identity elision
            if matches!(g.nodes[n].op, Op::Identity) && unary && !io_touches_exec(g, n) {
                proof {
                    assert(rule_elide(g@, n as int));
                }
                let mut taps: Vec<Outlet> = Vec::new();
                taps.push(g.nodes[n].inputs[0]);
                let mut shunts: Vec<Shunt> = Vec::new();
                shunts.push(Shunt { old: Outlet { node: n, slot: 0 }, new: PatchSource::Tap(0) });
                let mut dels: Vec<usize> = Vec::new();
                dels.push(n);
                let p = Patch { taps, nodes: Vec::new(), shunts, dels };
                proof {
                    let target = patch_elide(g@, n as int);
                    assert(p@.taps =~= target.taps);
                    assert(p@.nodes =~= target.nodes);
                    assert(p@.shunts =~= target.shunts);
                    assert(p@.dels =~= target.dels);
                    assert(p@ =~= target);
                }
                return Some(p);
            }
            proof {
                assert(!rule_prune(g@, n as int));
                assert(!rule_elide(g@, n as int));
            }
            // unit simplification
            let is_unit = unary && match &g.nodes[n].op {
                Op::AddConst(c) => *c == 0i64,
                Op::MulConst(c) => *c == 1i64,
                Op::Affine { mul, add } => *mul == 1i64 && *add == 0i64,
                _ => false,
            };
            if is_unit {
                proof {
                    assert(rule_unit(g@, n as int));
                }
                let fact = g.nodes[n].outputs[0].fact.duplicate();
                proof {
                    assert(fact@ == out_fact(g@, n as int));
                    assert(g@.nodes[n as int].outputs[0].fact.wf());
                }
                return Some(make_patch_replace(g, n, Op::Identity, fact, true));
            }
            proof {
                assert(!rule_unit(g@, n as int));
            }
            // constant folding
            let foldable = unary && matches!(
                g.nodes[n].op,
                Op::AddConst(_) | Op::MulConst(_) | Op::Affine { .. } | Op::LinearKernel { .. }
            );
            if foldable {
                let src = g.nodes[n].inputs[0];
                proof {
                    assert(g@.valid_outlet(src));
                }
                let has_value = g.nodes[src.node].outputs[src.slot].fact.value.is_some();
                if has_value {
                    let t = match &g.nodes[src.node].outputs[src.slot].fact.value {
                        Some(t) => crate::ops::map_tensor(&g.nodes[n].op, t),
                        None => Tensor { dt: DatumType::Int32, shape: Vec::new(), data: Vec::new() },
                    };
                    proof {
                        assert(t@ == mapped_tensor(
                            g@.nodes[n as int].op,
                            in_fact(g@, n as int).value->Some_0,
                        ));
                    }
                    // the outlet fact must already carry the folded type and shape
                    let of = &g.nodes[n].outputs[0].fact;
                    let dt_ok = match &of.dt {
                        Some(d) => *d == t.dt,
                        None => false,
                    };
                    let shape_ok = match &of.shape {
                        Some(s) => crate::fact::eq_dims(s, &crate::ops::dims_of_tensor(&t)),
                        None => false,
                    };
                    if dt_ok && shape_ok {
                        proof {
                            assert(out_fact(g@, n as int).dt == Some(t@.dt));
                            assert(out_fact(g@, n as int).shape == Some(fixed_dims(t@.shape)));
                            assert(rule_fold(g@, n as int));
                            // the folded tensor is well formed because the
                            // input value was
                            assert(in_fact(g@, n as int).wf()) by {
                                let o = g@.nodes[n as int].inputs[0];
                                assert(g@.nodes[o.node as int].outputs[o.slot as int].fact.wf());
                            }
                            assert(t@.wf()) by {
                                let v = in_fact(g@, n as int).value->Some_0;
                                assert(v.wf());
                                assert(t@.data.len() == v.data.len());
                            }
                        }
                        let full = Fact {
                            dt: Some(t.dt),
                            shape: Some(crate::ops::dims_of_tensor(&t)),
                            value: Some(t.duplicate()),
                        };
                        proof {
                            assert(full@ =~= full_fact(t@));
                            assert(full@.wf());
                        }
                        return Some(make_patch_replace(g, n, Op::Const(t), full, false));
                    }
                }
            }
            proof {
                assert(!rule_fold(g@, n as int));
            }
            None
        },
        Catalogue::Optimize => {
            let is_affine = matches!(g.nodes[n].op, Op::Affine { .. });
            if unary && is_affine && fact_concrete_exec(&g.nodes[n].outputs[0].fact) {
                proof {
                    assert(rule_kernel(g@, n as int));
                }
                let (mul, add) = match &g.nodes[n].op {
                    Op::Affine { mul, add } => (*mul, *add),
                    _ => (0i64, 0i64),
                };
                let fact = g.nodes[n].outputs[0].fact.duplicate();
                proof {
                    assert(fact@ == out_fact(g@, n as int));
                    assert(g@.nodes[n as int].outputs[0].fact.wf());
                    assert((Op::LinearKernel { mul, add })@ == match g@.nodes[n as int].op {
                        OpModel::Affine { mul: m2, add: a2 } => (OpModel::LinearKernel {
                            mul: m2,
                            add: a2,
                        }),
                        _ => OpModel::Identity,
                    });
                }
                return Some(make_patch_replace(g, n, Op::LinearKernel { mul, add }, fact, true));
            }
            proof {
                assert(!rule_kernel(g@, n as int));
            }
            None
        },
    }
}


/// Run the catalogue to its fixed point: apply the first firing rule, in
/// node order, through `Patch::apply`, until no rule fires.
fn run_rules(cat: Catalogue, g: Graph) -> (r: Result<Graph, RewriteError>)
    requires
        g@.wf(),
        sem_wf(g@),
    ensures
        match r {
            Ok(h) => {
                &&& rewrite_spec(cat, g@) == Ok::<GraphModel, RewriteError>(h@)
                &&& h@.wf()
                &&& sem_wf(h@)
                &&& io_sig(h@) == io_sig(g@)
                &&& first_rule(cat, h@, 0) is None
                &&& (cat == Catalogue::Declutter && kernel_free(g@) ==> kernel_free(h@))
            },
            Err(e) => rewrite_spec(cat, g@) == Err::<GraphModel, RewriteError>(e),
        },
{
    let ghost g0 = g@;
    let mut cur = g;
    let mut j: usize = 0;
    while j < cur.nodes.len()
        invariant
            g0 == g@,
            cur@.wf(),
            sem_wf(cur@),
            j <= cur.nodes.len(),
            io_sig(cur@) == io_sig(g0),
            rewrite_spec(cat, g0) == rewrite_spec(cat, cur@),
            first_rule(cat, cur@, 0) == first_rule(cat, cur@, j as int),
            cat == Catalogue::Declutter && kernel_free(g0) ==> kernel_free(cur@),
        decreases weight_sum(cur@), cur.nodes.len() - j,
    {
        match build_rule_patch(cat, &cur, j) {
            None => {
                proof {
                    assert(first_rule(cat, cur@, j as int) == first_rule(cat, cur@, j as int + 1));
                }
                j += 1;
            },
            Some(p) => {
                proof {
                    assert(first_rule(cat, cur@, j as int) == Some((j as int, p@)));
                }
                if cur.nodes.len() > usize::MAX - p.nodes.len() {
                    proof {
                        assert(cur@.nodes.len() + p@.nodes.len() > usize::MAX);
                    }
                    return Err(RewriteError::Stalled);
                }
                let ghost before = cur@;
                match p.apply(&mut cur) {
                    Err(e) => {
                        proof {
                            assert(patch_error_of(before, p@) == Some(e));
                        }
                        return Err(RewriteError::Patch(e));
                    },
                    Ok(()) => {
                        proof {
                            assert(cur@ == candidate(before, p@));
                            lemma_rule_decreases(cat, before, j as int, p@);
                            lemma_candidate_sem(before, p@);
                            assert(({
                                ||| (rule_prune(before, j as int) && p@ == patch_prune(
                                    before,
                                    j as int,
                                ))
                                ||| (rule_elide(before, j as int) && p@ == patch_elide(
                                    before,
                                    j as int,
                                ))
                                ||| (rule_unit(before, j as int) && p@ == patch_replace(
                                    before,
                                    j as int,
                                    OpModel::Identity,
                                    out_fact(before, j as int),
                                    true,
                                ))
                                ||| (rule_fold(before, j as int) && p@ == patch_replace(
                                    before,
                                    j as int,
                                    OpModel::Const(
                                        mapped_tensor(
                                            before.nodes[j as int].op,
                                            in_fact(before, j as int).value->Some_0,
                                        ),
                                    ),
                                    full_fact(
                                        mapped_tensor(
                                            before.nodes[j as int].op,
                                            in_fact(before, j as int).value->Some_0,
                                        ),
                                    ),
                                    false,
                                ))
                                ||| (rule_kernel(before, j as int) && p@ == patch_replace(
                                    before,
                                    j as int,
                                    match before.nodes[j as int].op {
                                        OpModel::Affine { mul, add } => (OpModel::LinearKernel {
                                            mul: mul,
                                            add: add,
                                        }),
                                        _ => OpModel::Identity,
                                    },
                                    out_fact(before, j as int),
                                    true,
                                ))
                                ||| (rule_fuse(before, j as int) && p@ == patch_fuse(
                                    before,
                                    j as int,
                                ))
                            }));
                            lemma_patch_sig(before, p@, j as int);
                            if cat == Catalogue::Declutter && kernel_free(g0) {
                                lemma_patch_kernel_free(before, p@, j as int);
                            }
                        }
                        j = 0;
                    },
                }
            },
        }
    }
    proof {
        assert(first_rule(cat, cur@, cur@.nodes.len() as int) is None);
        assert(rewrite_spec(cat, cur@) == Ok::<GraphModel, RewriteError>(cur@));
    }
    Ok(cur)
}

/// Declutter a graph: constant folding, identity elision, unit
/// simplification and dead-branch pruning, applied in stable node order to a
/// fixed point. The designated ports keep their names, types and shapes.
pub fn declutter(g: Graph) -> (r: Result<Graph, RewriteError>)
    requires
        g@.wf(),
        sem_wf(g@),
    ensures
        match r {
            Ok(h) => {
                &&& rewrite_spec(Catalogue::Declutter, g@) == Ok::<GraphModel, RewriteError>(h@)
                &&& h@.wf()
                &&& sem_wf(h@)
                &&& io_sig(h@) == io_sig(g@)
                &&& first_rule(Catalogue::Declutter, h@, 0) is None
                &&& (kernel_free(g@) ==> kernel_free(h@))
            },
            Err(e) => rewrite_spec(Catalogue::Declutter, g@) == Err::<GraphModel, RewriteError>(e),
        },
{
    run_rules(Catalogue::Declutter, g)
}

/// Optimize a graph: select concrete kernels for affine maps with static
/// shapes, then declutter again. The fact signature of the designated ports
/// is preserved exactly.
pub fn optimize(g: Graph) -> (r: Result<Graph, RewriteError>)
    requires
        g@.wf(),
        sem_wf(g@),
    ensures
        match r {
            Ok(h) => {
                &&& optimize_spec(g@) == Ok::<GraphModel, RewriteError>(h@)
                &&& h@.wf()
                &&& sem_wf(h@)
                &&& io_sig(h@) == io_sig(g@)
            },
            Err(e) => optimize_spec(g@) == Err::<GraphModel, RewriteError>(e),
        },
{
    match run_rules(Catalogue::Optimize, g) {
        Err(e) => Err(e),
        Ok(h) => run_rules(Catalogue::Declutter, h),
    }
}

/// What the optimizer computes: strategy selection to a fixed point, then
/// another decluttering pass.
pub open spec fn optimize_spec(g: GraphModel) -> Result<GraphModel, RewriteError> {
    match rewrite_spec(Catalogue::Optimize, g) {
        Err(e) => Err(e),
        Ok(h) => rewrite_spec(Catalogue::Declutter, h),
    }
}

/// What incorporation computes: one forward traversal, fusing each
/// decomposed idiom in place as it is met.
pub open spec fn incorporate_from(g: GraphModel, n: int) -> Result<GraphModel, RewriteError>
    decreases weight_sum(g), (if n <= g.nodes.len() { g.nodes.len() - n } else { 0int }),
{
    if n < 0 || n >= g.nodes.len() {
        Ok(g)
    } else if rule_fuse(g, n) {
        let p = patch_fuse(g, n);
        if g.nodes.len() + p.nodes.len() > usize::MAX {
            Err(RewriteError::Stalled)
        } else {
            match patch_error_of(g, p) {
                Some(e) => Err(RewriteError::Patch(e)),
                None => {
                    let g2 = candidate(g, p);
                    if weight_sum(g2) < weight_sum(g) {
                        incorporate_from(g2, n + 1)
                    } else {
                        Err(RewriteError::Stalled)
                    }
                },
            }
        }
    } else {
        incorporate_from(g, n + 1)
    }
}

/// Incorporate framework idioms: a single forward traversal that fuses each
/// decomposed affine pair (a mul-constant feeding only an add-constant) into
/// the canonical affine operation. Unmatched nodes pass through unchanged;
/// decluttering, not incorporation, is responsible for iterating to a fixed
/// point.
pub fn incorporate(g: Graph) -> (r: Result<Graph, RewriteError>)
    requires
        g@.wf(),
        sem_wf(g@),
    ensures
        match r {
            Ok(h) => {
                &&& incorporate_from(g@, 0) == Ok::<GraphModel, RewriteError>(h@)
                &&& h@.wf()
                &&& sem_wf(h@)
                &&& io_sig(h@) == io_sig(g@)
                &&& (kernel_free(g@) ==> kernel_free(h@))
            },
            Err(e) => incorporate_from(g@, 0) == Err::<GraphModel, RewriteError>(e),
        },
{
    let ghost g0 = g@;
    let mut cur = g;
    let mut j: usize = 0;
    while j < cur.nodes.len()
        invariant
            g0 == g@,
            cur@.wf(),
            sem_wf(cur@),
            j <= cur.nodes.len(),
            io_sig(cur@) == io_sig(g0),
            incorporate_from(g0, 0) == incorporate_from(cur@, j as int),
            kernel_free(g0) ==> kernel_free(cur@),
        decreases weight_sum(cur@), cur.nodes.len() - j,
    {
        let fires = fuse_matches(&cur, j);
        if fires {
            let (mul, add) = fuse_consts(&cur, j);
            let p = make_patch_fuse(&cur, j, mul, add);
            proof {
                assert(p@ == patch_fuse(cur@, j as int));
                assert(forall|j2: int|
                    0 <= j2 < p@.nodes.len() ==> !((#[trigger] p@.nodes[j2]).op is Removed));
            }
            if cur.nodes.len() > usize::MAX - p.nodes.len() {
                proof {
                    assert(cur@.nodes.len() + p@.nodes.len() > usize::MAX);
                }
                return Err(RewriteError::Stalled);
            }
            let ghost before = cur@;
            match p.apply(&mut cur) {
                Err(e) => {
                    proof {
                        assert(patch_error_of(before, p@) == Some(e));
                    }
                    return Err(RewriteError::Patch(e));
                },
                Ok(()) => {
                    proof {
                        assert(cur@ == candidate(before, p@));
                        lemma_fuse_decreases(before, j as int);
                        assert(out_fact(before, j as int).wf()) by {
                            assert(before.nodes[j as int].outputs[0].fact.wf());
                        }
                        lemma_candidate_sem(before, p@);
                        lemma_patch_sig(before, p@, j as int);
                        if kernel_free(g0) {
                            lemma_patch_kernel_free(before, p@, j as int);
                        }
                    }
                    j += 1;
                },
            }
        } else {
            proof {
                assert(incorporate_from(cur@, j as int) == incorporate_from(cur@, j as int + 1));
            }
            j += 1;
        }
    }
    Ok(cur)
}

/// Does the fusion rule fire at node `n`?
fn fuse_matches(g: &Graph, n: usize) -> (r: bool)
    requires
        g@.wf(),
        n < g.nodes.len(),
    ensures
        r == rule_fuse(g@, n as int),
{
    if matches!(g.nodes[n].op, Op::Removed) {
        proof {
            assert(!g@.live(n as int));
        }
        return false;
    }
    if !(g.nodes[n].inputs.len() == 1 && g.nodes[n].outputs.len() == 1) {
        return false;
    }
    if !matches!(g.nodes[n].op, Op::AddConst(_)) {
        return false;
    }
    let o = g.nodes[n].inputs[0];
    if o.slot != 0 {
        return false;
    }
    proof {
        assert(g@.valid_outlet(o));
    }
    let m = o.node;
    if !matches!(g.nodes[m].op, Op::MulConst(_)) {
        return false;
    }
    if !(g.nodes[m].inputs.len() == 1 && g.nodes[m].outputs.len() == 1) {
        return false;
    }
    if g.nodes[m].outputs[0].successors.len() != 1 {
        return false;
    }
    if io_touches_exec(g, m) {
        return false;
    }
    true
}

/// The constants of a matched fusion pair.
fn fuse_consts(g: &Graph, n: usize) -> (r: (i64, i64))
    requires
        g@.wf(),
        n < g.nodes.len(),
        rule_fuse(g@, n as int),
    ensures
        g@.nodes[n as int].op == OpModel::AddConst(r.1),
        g@.nodes[g@.nodes[n as int].inputs[0].node as int].op == OpModel::MulConst(r.0),
{
    let add = match &g.nodes[n].op {
        Op::AddConst(c) => *c,
        _ => 0i64,
    };
    proof {
        assert(g@.valid_outlet(g@.nodes[n as int].inputs[0]));
    }
    let mul = match &g.nodes[g.nodes[n].inputs[0].node].op {
        Op::MulConst(c) => *c,
        _ => 0i64,
    };
    (mul, add)
}


/// Decluttering is idempotent: a second pass over a decluttered graph
/// changes nothing, because the first pass only ends at a fixed point of the
/// rule catalogue.
pub proof fn lemma_declutter_idempotent(g: GraphModel)
    ensures
        rewrite_spec(Catalogue::Declutter, g) matches Ok(h) ==> rewrite_spec(Catalogue::Declutter, h)
            == Ok::<GraphModel, RewriteError>(h),
{
    lemma_rewrite_fixpoint(Catalogue::Declutter, g);
}


/// No optimizer-selected operation appears anywhere in the graph. Every
/// stage but the optimizer preserves this.
pub open spec fn kernel_free(g: GraphModel) -> bool {
    forall|n: int|
        0 <= n < g.nodes.len() ==> !((#[trigger] g.nodes[n].op) matches OpModel::LinearKernel {
            ..
        })
}

/// The declutter catalogue only ever writes identities and constants, and
/// incorporation only affine maps: none of them introduces a kernel.
proof fn lemma_patch_kernel_free(g: GraphModel, p: PatchModel, n: int)
    requires
        kernel_free(g),
        0 <= n < g.nodes.len(),
        rule_at(Catalogue::Declutter, g, n) == Some(p) || (rule_fuse(g, n) && p == patch_fuse(
            g,
            n,
        )),
    ensures
        kernel_free(candidate(g, p)),
{
    let c = candidate(g, p);
    let pre = crate::patch::pre_nodes(g, p);
    let glen = g.nodes.len() as int;
    assert forall|i: int|
        0 <= i < c.nodes.len() implies !((#[trigger] c.nodes[i].op) matches OpModel::LinearKernel {
        ..
    }) by {
        assert(c.nodes[i].op == pre[i].op);
        if i < glen {
            if !p.dels.contains(i as usize) {
                assert(pre[i].op == g.nodes[i].op);
            }
        } else {
            assert(pre[i].op == p.nodes[i - glen].op);
        }
    }
}

} // verus!
