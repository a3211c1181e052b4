//! The analyser: fixed-point shape and type inference.
//!
//! Nodes are visited in id order; the first node whose inference rule can
//! refine a fact is applied and the scan restarts, until no rule makes
//! progress. Each applied step strictly lowers the number of unknown fact
//! fields, which bounds the iteration. Conflicts abort at once under
//! `fail_fast`, and are otherwise collected at the fixed point.

use vstd::prelude::*;

use crate::construct::with_fact;
use crate::fact::{lemma_refines_unknown, Fact, FactModel};
use crate::graph::{Graph, GraphModel, NodeModel, Op, OpModel, Outlet, SlotModel};
use crate::ops::{infer, infer_spec, lemma_infer_refines, AnalysisError, AnalysisErrorKind};

verus! {

/// Every fact in the graph is well formed.
pub open spec fn facts_wf(g: GraphModel) -> bool {
    forall|n: int, s: int|
        0 <= n < g.nodes.len() && 0 <= s < g.nodes[n].outputs.len() ==> (
        #[trigger] g.nodes[n].outputs[s]).fact.wf()
}

/// Every constant's tensor is well formed.
pub open spec fn ops_wf(g: GraphModel) -> bool {
    forall|n: int|
        0 <= n < g.nodes.len() ==> ((#[trigger] g.nodes[n].op) matches OpModel::Const(t) ==> t.wf())
}

/// The semantic side of the graph invariant: all facts and constants are
/// internally consistent.
pub open spec fn sem_wf(g: GraphModel) -> bool {
    facts_wf(g) && ops_wf(g)
}

/// The facts on the edges feeding node `n`, in input order.
pub open spec fn gather_ins(g: GraphModel, n: int) -> Seq<FactModel> {
    g.nodes[n].inputs.map_values(
        |o: Outlet| g.nodes[o.node as int].outputs[o.slot as int].fact,
    )
}

/// The facts on node `n`'s own output slots.
pub open spec fn gather_outs(g: GraphModel, n: int) -> Seq<FactModel> {
    g.nodes[n].outputs.map_values(|s: SlotModel| s.fact)
}

/// One inference step at node `n`.
pub open spec fn node_infer(g: GraphModel, n: int) -> Result<
    (Seq<FactModel>, Seq<FactModel>),
    AnalysisErrorKind,
> {
    infer_spec(g.nodes[n].op, gather_ins(g, n), gather_outs(g, n))
}

/// The step at node `n` would refine some fact.
pub open spec fn node_changed(g: GraphModel, n: int) -> bool {
    node_infer(g, n) matches Ok((i2, o2)) && (i2 != gather_ins(g, n) || o2 != gather_outs(g, n))
}

/// The graph after applying node `n`'s step: the refined facts are written
/// back onto the node's input edges and output slots.
pub open spec fn apply_node(g: GraphModel, n: int) -> GraphModel {
    let (i2, o2) = node_infer(g, n)->Ok_0;
    let g1 = if g.nodes[n].inputs.len() == 1 {
        with_fact(g, g.nodes[n].inputs[0], i2[0])
    } else {
        g
    };
    if g.nodes[n].outputs.len() == 1 {
        with_fact(g1, Outlet { node: n as usize, slot: 0 }, o2[0])
    } else {
        g1
    }
}

/// The first place the scan acts, from node `n` up: the node of the first
/// conflict (when `fail_fast` is set; `true` in the result) or the first
/// refinement (`false`).
pub open spec fn first_event(g: GraphModel, fail_fast: bool, n: int) -> Option<(int, bool)>
    decreases g.nodes.len() - n,
{
    if n < 0 || n >= g.nodes.len() {
        None
    } else if g.live(n) && fail_fast && node_infer(g, n) is Err {
        Some((n, true))
    } else if g.live(n) && node_changed(g, n) {
        Some((n, false))
    } else {
        first_event(g, fail_fast, n + 1)
    }
}

/// The conflicts still present at the fixed point, in node order.
pub open spec fn collect_errors(g: GraphModel, n: int) -> Seq<AnalysisError>
    decreases g.nodes.len() - n,
{
    if n < 0 || n >= g.nodes.len() {
        Seq::empty()
    } else {
        let rest = collect_errors(g, n + 1);
        if g.live(n) && node_infer(g, n) is Err {
            seq![
                AnalysisError { node: n as usize, kind: node_infer(g, n)->Err_0 },
            ] + rest
        } else {
            rest
        }
    }
}

/// Unknown fact fields over a slot list.
pub open spec fn slots_unknown(outs: Seq<SlotModel>) -> nat
    decreases outs.len(),
{
    if outs.len() == 0 {
        0
    } else {
        slots_unknown(outs.drop_last()) + outs.last().fact.unknown_count()
    }
}

/// Unknown fact fields over an arena.
pub open spec fn nodes_unknown(ns: Seq<NodeModel>) -> nat
    decreases ns.len(),
{
    if ns.len() == 0 {
        0
    } else {
        nodes_unknown(ns.drop_last()) + slots_unknown(ns.last().outputs)
    }
}

/// Unknown fact fields over the whole graph: the analyser's termination
/// measure.
pub open spec fn unknown_sum(g: GraphModel) -> nat {
    nodes_unknown(g.nodes)
}

/// What the analyser computes, as a function of the starting graph.
pub open spec fn analyse_spec(g: GraphModel, fail_fast: bool) -> Result<
    GraphModel,
    Seq<AnalysisError>,
>
    decreases unknown_sum(g),
{
    match first_event(g, fail_fast, 0) {
        None => {
            let errs = collect_errors(g, 0);
            if errs.len() == 0 {
                Ok(g)
            } else {
                Err(errs)
            }
        },
        Some((n, true)) => Err(
            seq![AnalysisError { node: n as usize, kind: node_infer(g, n)->Err_0 }],
        ),
        Some((n, false)) => {
            let g2 = apply_node(g, n);
            if unknown_sum(g2) < unknown_sum(g) {
                analyse_spec(g2, fail_fast)
            } else {
                Err(Seq::empty())
            }
        },
    }
}

/// Replacing one slot's fact shifts the measure by exactly the difference of
/// the two facts' unknown counts.
proof fn lemma_slots_unknown_update(outs: Seq<SlotModel>, s: int, f: FactModel)
    requires
        0 <= s < outs.len(),
    ensures
        slots_unknown(outs.update(s, SlotModel { fact: f, successors: outs[s].successors }))
            + outs[s].fact.unknown_count() == slots_unknown(outs) + f.unknown_count(),
    decreases outs.len(),
{
    let upd = outs.update(s, SlotModel { fact: f, successors: outs[s].successors });
    if s == outs.len() - 1 {
        assert(upd.drop_last() =~= outs.drop_last());
    } else {
        lemma_slots_unknown_update(outs.drop_last(), s, f);
        assert(upd.drop_last() =~= outs.drop_last().update(
            s,
            SlotModel { fact: f, successors: outs[s].successors },
        ));
        assert(upd.last() == outs.last());
    }
}

/// The same, one level up.
proof fn lemma_nodes_unknown_update(ns: Seq<NodeModel>, n: int, nn: NodeModel)
    requires
        0 <= n < ns.len(),
        nn.outputs.len() == ns[n].outputs.len(),
    ensures
        nodes_unknown(ns.update(n, nn)) + slots_unknown(ns[n].outputs) == nodes_unknown(ns)
            + slots_unknown(nn.outputs),
    decreases ns.len(),
{
    let upd = ns.update(n, nn);
    if n == ns.len() - 1 {
        assert(upd.drop_last() =~= ns.drop_last());
    } else {
        lemma_nodes_unknown_update(ns.drop_last(), n, nn);
        assert(upd.drop_last() =~= ns.drop_last().update(n, nn));
        assert(upd.last() == ns.last());
    }
}

/// Writing a fact onto a valid outlet shifts the measure by the difference
/// of the unknown counts.
proof fn lemma_with_fact_unknown(g: GraphModel, o: Outlet, f: FactModel)
    requires
        g.valid_outlet(o),
    ensures
        unknown_sum(with_fact(g, o, f)) + g.nodes[o.node as int].outputs[o.slot as int].fact.unknown_count()
            == unknown_sum(g) + f.unknown_count(),
        with_fact(g, o, f).nodes[o.node as int].outputs[o.slot as int].fact == f,
{
    let node = g.nodes[o.node as int];
    let nn = NodeModel {
        outputs: node.outputs.update(
            o.slot as int,
            SlotModel { fact: f, successors: node.outputs[o.slot as int].successors },
        ),
        ..node
    };
    lemma_slots_unknown_update(node.outputs, o.slot as int, f);
    lemma_nodes_unknown_update(g.nodes, o.node as int, nn);
}

/// A changed step strictly lowers the measure.
proof fn lemma_apply_node_progress(g: GraphModel, n: int)
    requires
        g.wf(),
        sem_wf(g),
        g.live(n),
        node_changed(g, n),
    ensures
        unknown_sum(apply_node(g, n)) < unknown_sum(g),
{
    let ins = gather_ins(g, n);
    let outs = gather_outs(g, n);
    let (i2, o2) = node_infer(g, n)->Ok_0;
    assert forall|i: int| 0 <= i < ins.len() implies (#[trigger] ins[i]).wf() by {
        let o = g.nodes[n].inputs[i];
        assert(g.valid_outlet(o));
        assert(ins[i] == g.nodes[o.node as int].outputs[o.slot as int].fact);
    }
    assert forall|i: int| 0 <= i < outs.len() implies (#[trigger] outs[i]).wf() by {
        assert(outs[i] == g.nodes[n].outputs[i].fact);
    }
    lemma_infer_refines(g.nodes[n].op, ins, outs);
    let arity = g.nodes[n].inputs.len();
    if arity == 1 {
        let src = g.nodes[n].inputs[0];
        assert(g.valid_outlet(src));
        let g1 = with_fact(g, src, i2[0]);
        assert(ins[0] == g.nodes[src.node as int].outputs[src.slot as int].fact);
        lemma_with_fact_unknown(g, src, i2[0]);
        lemma_refines_unknown(i2[0], ins[0]);
        // the node's own slot is a different slot of a different node
        assert(src.node as int != n) by {
            if src.node as int == n {
                assert(g.edge(n, n));
                let r = choose|r: Seq<nat>| g.respects_ranks(r);
                assert(r[n] < r[n]);
            }
        }
        let own = Outlet { node: n as usize, slot: 0 };
        assert(g1.valid_outlet(own)) by {
            assert(g1.nodes[n].op == g.nodes[n].op);
            assert(g1.nodes[n].outputs.len() == g.nodes[n].outputs.len());
        }
        let g2 = with_fact(g1, own, o2[0]);
        lemma_with_fact_unknown(g1, own, o2[0]);
        assert(g1.nodes[n].outputs[0].fact == g.nodes[n].outputs[0].fact);
        assert(outs[0] == g.nodes[n].outputs[0].fact);
        lemma_refines_unknown(o2[0], outs[0]);
        assert(i2 =~= seq![i2[0]]);
        assert(o2 =~= seq![o2[0]]);
        assert(ins =~= seq![ins[0]]);
        assert(outs =~= seq![outs[0]]);
        if i2[0] == ins[0] && o2[0] == outs[0] {
            assert(i2 =~= ins);
            assert(o2 =~= outs);
            assert(false);
        }
        assert(apply_node(g, n) == g2);
    } else {
        assert(arity == 0);
        let own = Outlet { node: n as usize, slot: 0 };
        assert(g.valid_outlet(own));
        let g2 = with_fact(g, own, o2[0]);
        lemma_with_fact_unknown(g, own, o2[0]);
        assert(outs[0] == g.nodes[n].outputs[0].fact);
        lemma_refines_unknown(o2[0], outs[0]);
        assert(i2 =~= ins);
        assert(o2 =~= seq![o2[0]]);
        assert(outs =~= seq![outs[0]]);
        if o2[0] == outs[0] {
            assert(o2 =~= outs);
            assert(false);
        }
        assert(apply_node(g, n) == g2);
    }
}

/// Applying a step keeps both halves of the invariant.
proof fn lemma_apply_node_wf(g: GraphModel, n: int)
    requires
        g.wf(),
        sem_wf(g),
        g.live(n),
        node_infer(g, n) is Ok,
    ensures
        sem_wf(apply_node(g, n)),
        apply_node(g, n).nodes.len() == g.nodes.len(),
        forall|m: int|
            0 <= m < g.nodes.len() ==> {
                let a = #[trigger] apply_node(g, n).nodes[m];
                let b = g.nodes[m];
                a.id == b.id && a.name == b.name && a.op == b.op && a.inputs == b.inputs
                    && a.outputs.len() == b.outputs.len()
            },
{
    let ins = gather_ins(g, n);
    let outs = gather_outs(g, n);
    let (i2, o2) = node_infer(g, n)->Ok_0;
    assert forall|i: int| 0 <= i < ins.len() implies (#[trigger] ins[i]).wf() by {
        let o = g.nodes[n].inputs[i];
        assert(g.valid_outlet(o));
        assert(ins[i] == g.nodes[o.node as int].outputs[o.slot as int].fact);
    }
    assert forall|i: int| 0 <= i < outs.len() implies (#[trigger] outs[i]).wf() by {
        assert(outs[i] == g.nodes[n].outputs[i].fact);
    }
    lemma_infer_refines(g.nodes[n].op, ins, outs);
    let c = apply_node(g, n);
    assert forall|m: int, s: int|
        0 <= m < c.nodes.len() && 0 <= s < c.nodes[m].outputs.len() implies (
    #[trigger] c.nodes[m].outputs[s]).fact.wf() by {
        if g.nodes[n].inputs.len() == 1 {
            let src = g.nodes[n].inputs[0];
            if m == src.node as int && s == src.slot as int && !(m == n && s == 0) {
                assert(c.nodes[m].outputs[s].fact == i2[0]);
            } else if m == n && s == 0 {
                assert(c.nodes[m].outputs[s].fact == o2[0]);
            } else {
                assert(c.nodes[m].outputs[s].fact == g.nodes[m].outputs[s].fact);
            }
        } else {
            if m == n && s == 0 {
                assert(c.nodes[m].outputs[s].fact == o2[0]);
            } else {
                assert(c.nodes[m].outputs[s].fact == g.nodes[m].outputs[s].fact);
            }
        }
    }
    assert(facts_wf(c));
    assert forall|m: int|
        0 <= m < c.nodes.len() implies ((#[trigger] c.nodes[m].op) matches OpModel::Const(t)
        ==> t.wf()) by {
        assert(c.nodes[m].op == g.nodes[m].op);
    }
    assert(ops_wf(c));
}

/// Analysing a second time changes nothing: the result of a successful
/// analysis is its own fixed point. This is the analyser's idempotence law.
pub proof fn lemma_analyse_fixpoint(g: GraphModel, fail_fast: bool)
    ensures
        analyse_spec(g, fail_fast) matches Ok(h) ==> {
            &&& first_event(h, fail_fast, 0) is None
            &&& collect_errors(h, 0).len() == 0
            &&& analyse_spec(h, fail_fast) == Ok::<GraphModel, Seq<AnalysisError>>(h)
        },
    decreases unknown_sum(g),
{
    match first_event(g, fail_fast, 0) {
        None => {},
        Some((n, is_err)) => {
            if !is_err {
                let g2 = apply_node(g, n);
                if unknown_sum(g2) < unknown_sum(g) {
                    lemma_analyse_fixpoint(g2, fail_fast);
                }
            }
        },
    }
}


/// Structural agreement: same arena shape and designated ports, facts aside.
pub open spec fn same_shape(a: GraphModel, b: GraphModel) -> bool {
    &&& b.nodes.len() == a.nodes.len()
    &&& b.inputs == a.inputs
    &&& b.outputs == a.outputs
    &&& forall|m: int|
        0 <= m < a.nodes.len() ==> {
            let x = a.nodes[m];
            let y = #[trigger] b.nodes[m];
            x.id == y.id && x.name == y.name && x.op == y.op && x.inputs == y.inputs
                && x.outputs.len() == y.outputs.len()
        }
}

/// The facts feeding node `n`, copied out of the graph.
fn gather_ins_exec(g: &Graph, n: usize) -> (r: Vec<Fact>)
    requires
        g@.wf(),
        g@.live(n as int),
    ensures
        r@.map_values(|f: Fact| f@) == gather_ins(g@, n as int),
{
    let node = &g.nodes[n];
    let mut r: Vec<Fact> = Vec::new();
    let mut k: usize = 0;
    while k < node.inputs.len()
        invariant
            k <= node.inputs.len(),
            r.len() == k,
            node == &g.nodes[n as int],
            g@.wf(),
            g@.live(n as int),
            forall|k2: int|
                0 <= k2 < k ==> r@[k2]@ == {
                    let o = g@.nodes[n as int].inputs[k2];
                    g@.nodes[o.node as int].outputs[o.slot as int].fact
                },
        decreases node.inputs.len() - k,
    {
        let o = node.inputs[k];
        proof {
            assert(o == g@.nodes[n as int].inputs[k as int]);
            assert(g@.valid_outlet(o));
        }
        r.push(g.nodes[o.node].outputs[o.slot].fact.duplicate());
        k += 1;
    }
    proof {
        assert(r@.map_values(|f: Fact| f@) =~= gather_ins(g@, n as int));
    }
    r
}

/// The facts on node `n`'s own slots, copied out of the graph.
fn gather_outs_exec(g: &Graph, n: usize) -> (r: Vec<Fact>)
    requires
        n < g.nodes.len(),
    ensures
        r@.map_values(|f: Fact| f@) == gather_outs(g@, n as int),
{
    let node = &g.nodes[n];
    let mut r: Vec<Fact> = Vec::new();
    let mut k: usize = 0;
    while k < node.outputs.len()
        invariant
            k <= node.outputs.len(),
            r.len() == k,
            node == &g.nodes[n as int],
            n < g.nodes.len(),
            forall|k2: int| 0 <= k2 < k ==> r@[k2]@ == g@.nodes[n as int].outputs[k2].fact,
        decreases node.outputs.len() - k,
    {
        r.push(node.outputs[k].fact.duplicate());
        k += 1;
    }
    proof {
        assert(r@.map_values(|f: Fact| f@) =~= gather_outs(g@, n as int));
    }
    r
}

/// Model equality of two fact vectors.
fn facts_same(a: &Vec<Fact>, b: &Vec<Fact>) -> (r: bool)
    ensures
        r == (a@.map_values(|f: Fact| f@) == b@.map_values(|f: Fact| f@)),
{
    if a.len() != b.len() {
        proof {
            assert(a@.map_values(|f: Fact| f@).len() != b@.map_values(|f: Fact| f@).len());
        }
        return false;
    }
    let mut i: usize = 0;
    while i < a.len()
        invariant
            i <= a.len(),
            a.len() == b.len(),
            forall|j: int| 0 <= j < i ==> a@[j]@ == b@[j]@,
        decreases a.len() - i,
    {
        if !a[i].same(&b[i]) {
            proof {
                assert(a@.map_values(|f: Fact| f@)[i as int] != b@.map_values(|f: Fact| f@)[i as int]);
            }
            return false;
        }
        i += 1;
    }
    proof {
        assert(a@.map_values(|f: Fact| f@) =~= b@.map_values(|f: Fact| f@));
    }
    true
}

/// Run shape and type inference to its fixed point.
///
/// The result is exactly `analyse_spec` of the input: either the refined
/// graph, or the conflicts (the first one under `fail_fast`, otherwise all
/// conflicts present at the fixed point, in node order). The graph's
/// structure — nodes, names, operations, edges, designated ports — is never
/// changed; only facts are refined.
pub fn analyse(g: Graph, fail_fast: bool) -> (r: Result<Graph, Vec<AnalysisError>>)
    requires
        g@.wf(),
        sem_wf(g@),
    ensures
        match r {
            Ok(h) => {
                &&& analyse_spec(g@, fail_fast) == Ok::<GraphModel, Seq<AnalysisError>>(h@)
                &&& h@.wf()
                &&& sem_wf(h@)
                &&& same_shape(g@, h@)
            },
            Err(errs) => analyse_spec(g@, fail_fast) == Err::<GraphModel, Seq<AnalysisError>>(
                errs@,
            ),
        },
{
    let ghost g0 = g@;
    let mut cur = g;
    let n = cur.nodes.len();
    let mut j: usize = 0;
    while j < n
        invariant
            g0 == g@,
            cur@.wf(),
            sem_wf(cur@),
            n == cur.nodes.len(),
            j <= n,
            same_shape(g0, cur@),
            analyse_spec(g0, fail_fast) == analyse_spec(cur@, fail_fast),
            first_event(cur@, fail_fast, 0) == first_event(cur@, fail_fast, j as int),
        decreases unknown_sum(cur@), n - j,
    {
        let live = !matches!(cur.nodes[j].op, Op::Removed);
        if live {
            let ins = gather_ins_exec(&cur, j);
            let outs = gather_outs_exec(&cur, j);
            let op = cur.nodes[j].op.duplicate();
            match infer(&op, &ins, &outs) {
                Err(kind) => {
                    proof {
                        assert(node_infer(cur@, j as int) == Err::<
                            (Seq<FactModel>, Seq<FactModel>),
                            AnalysisErrorKind,
                        >(kind));
                    }
                    if fail_fast {
                        proof {
                            assert(cur@.live(j as int));
                            assert(first_event(cur@, fail_fast, j as int) == Some((j as int, true)));
                            assert(first_event(cur@, fail_fast, 0) == Some((j as int, true)));
                        }
                        let mut errs: Vec<AnalysisError> = Vec::new();
                        errs.push(AnalysisError { node: j, kind });
                        proof {
                            assert(errs@ =~= seq![
                                AnalysisError {
                                    node: j,
                                    kind: node_infer(cur@, j as int)->Err_0,
                                },
                            ]);
                            assert(analyse_spec(cur@, fail_fast) == Err::<
                                GraphModel,
                                Seq<AnalysisError>,
                            >(errs@));
                        }
                        return Err(errs);
                    }
                    proof {
                        assert(!node_changed(cur@, j as int));
                        assert(first_event(cur@, fail_fast, j as int) == first_event(
                            cur@,
                            fail_fast,
                            j as int + 1,
                        ));
                    }
                    j += 1;
                },
                Ok((i2, o2)) => {
                    proof {
                        crate::ops::lemma_infer_ok_arity(
                            cur@.nodes[j as int].op,
                            gather_ins(cur@, j as int),
                            gather_outs(cur@, j as int),
                        );
                        assert(i2@.map_values(|f: Fact| f@).len() == gather_ins(
                            cur@,
                            j as int,
                        ).len());
                        assert(o2@.map_values(|f: Fact| f@).len() == 1);
                        assert(o2.len() == 1);
                        assert(i2.len() == gather_ins(cur@, j as int).len());
                        assert(i2.len() == cur@.nodes[j as int].inputs.len());
                    }
                    let changed = !facts_same(&i2, &ins) || !facts_same(&o2, &outs);
                    if changed {
                        proof {
                            assert(node_changed(cur@, j as int));
                            assert(first_event(cur@, fail_fast, j as int) == Some((
                                j as int,
                                false,
                            )));
                            lemma_apply_node_progress(cur@, j as int);
                            lemma_apply_node_wf(cur@, j as int);
                        }
                        let ghost before = cur@;
                        let arity = cur.nodes[j].inputs.len();
                        if arity == 1 {
                            let src = cur.nodes[j].inputs[0];
                            proof {
                                assert(cur@.valid_outlet(src));
                            }
                            let rr = cur.set_outlet_fact(src, i2[0].duplicate());
                            proof {
                                if rr is Err {
                                    assert(false);
                                }
                            }
                            let rr2 = cur.set_outlet_fact(Outlet { node: j, slot: 0 }, o2[0].duplicate());
                            proof {
                                if rr2 is Err {
                                    assert(before.valid_outlet(Outlet { node: j, slot: 0 }));
                                    assert(with_fact(before, src, i2@[0]@).nodes[j as int].op
                                        == before.nodes[j as int].op);
                                    assert(with_fact(before, src, i2@[0]@).nodes[j as int].outputs.len()
                                        == before.nodes[j as int].outputs.len());
                                    assert(false);
                                }
                                assert(cur@ == apply_node(before, j as int));
                            }
                        } else {
                            proof {
                                assert(gather_ins(before, j as int).len() == arity);
                                assert(arity == 0);
                                assert(before.valid_outlet(Outlet { node: j, slot: 0 }));
                            }
                            let rr2 = cur.set_outlet_fact(Outlet { node: j, slot: 0 }, o2[0].duplicate());
                            proof {
                                if rr2 is Err {
                                    assert(false);
                                }
                                assert(cur@ == apply_node(before, j as int));
                            }
                        }
                        proof {
                            lemma_apply_node_wf(before, j as int);
                            assert forall|m: int| 0 <= m < g0.nodes.len() implies {
                                let x = g0.nodes[m];
                                let y = #[trigger] cur@.nodes[m];
                                x.id == y.id && x.name == y.name && x.op == y.op && x.inputs
                                    == y.inputs && x.outputs.len() == y.outputs.len()
                            } by {
                                assert(cur@.nodes[m].id == before.nodes[m].id);
                            }
                            assert(same_shape(g0, cur@));
                            assert(first_event(cur@, fail_fast, 0) == first_event(
                                cur@,
                                fail_fast,
                                0,
                            ));
                        }
                        j = 0;
                    } else {
                        proof {
                            assert(!node_changed(cur@, j as int));
                            assert(!(node_infer(cur@, j as int) is Err));
                            assert(first_event(cur@, fail_fast, j as int) == first_event(
                                cur@,
                                fail_fast,
                                j as int + 1,
                            ));
                        }
                        j += 1;
                    }
                },
            }
        } else {
            proof {
                assert(!cur@.live(j as int));
                assert(first_event(cur@, fail_fast, j as int) == first_event(
                    cur@,
                    fail_fast,
                    j as int + 1,
                ));
            }
            j += 1;
        }
    }
    proof {
        assert(first_event(cur@, fail_fast, 0) is None);
    }
    // fixed point reached: collect whatever conflicts remain.
    let mut errs: Vec<AnalysisError> = Vec::new();
    let mut k: usize = 0;
    while k < n
        invariant
            g0 == g@,
            cur@.wf(),
            sem_wf(cur@),
            same_shape(g0, cur@),
            analyse_spec(g0, fail_fast) == analyse_spec(cur@, fail_fast),
            first_event(cur@, fail_fast, 0) is None,
            n == cur.nodes.len(),
            k <= n,
            collect_errors(cur@, 0) =~= errs@ + collect_errors(cur@, k as int),
        decreases n - k,
    {
        let live = !matches!(cur.nodes[k].op, Op::Removed);
        if live {
            let ins = gather_ins_exec(&cur, k);
            let outs = gather_outs_exec(&cur, k);
            let op = cur.nodes[k].op.duplicate();
            match infer(&op, &ins, &outs) {
                Err(kind) => {
                    proof {
                        assert(node_infer(cur@, k as int) == Err::<
                            (Seq<FactModel>, Seq<FactModel>),
                            AnalysisErrorKind,
                        >(kind));
                    }
                    errs.push(AnalysisError { node: k, kind });
                    proof {
                        assert(collect_errors(cur@, k as int) =~= seq![
                            AnalysisError { node: k, kind: kind },
                        ] + collect_errors(cur@, k as int + 1));
                        assert(collect_errors(cur@, 0) =~= errs@ + collect_errors(
                            cur@,
                            k as int + 1,
                        ));
                    }
                },
                Ok(_) => {
                    proof {
                        assert(collect_errors(cur@, k as int) =~= collect_errors(
                            cur@,
                            k as int + 1,
                        ));
                    }
                },
            }
        } else {
            proof {
                assert(collect_errors(cur@, k as int) =~= collect_errors(cur@, k as int + 1));
            }
        }
        k += 1;
    }
    proof {
        assert(collect_errors(cur@, n as int) =~= Seq::<AnalysisError>::empty());
        assert(collect_errors(cur@, 0) =~= errs@);
    }
    if errs.len() == 0 {
        proof {
            assert(collect_errors(cur@, 0).len() == 0);
            assert(analyse_spec(cur@, fail_fast) == Ok::<GraphModel, Seq<AnalysisError>>(cur@));
        }
        Ok(cur)
    } else {
        proof {
            assert(analyse_spec(cur@, fail_fast) == Err::<GraphModel, Seq<AnalysisError>>(errs@));
        }
        Err(errs)
    }
}

} // verus!

