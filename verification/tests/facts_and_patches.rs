//! Facts, unification, graph construction and patch application.

use graphpipe::fact::{DatumType, Dim, Fact, Tensor, TypeConflict};
use graphpipe::graph::{Graph, Op, Outlet};
use graphpipe::construct::GraphError;
use graphpipe::patch::{Patch, PatchError, PatchSource};
use graphpipe::driver::{stage_from_token, stage_token, Stage};

fn f32_fact() -> Fact {
    Fact { dt: Some(DatumType::Float32), shape: None, value: None }
}

fn i32_fact() -> Fact {
    Fact { dt: Some(DatumType::Int32), shape: None, value: None }
}

fn typed_fact(dt: DatumType, dims: Vec<Dim>) -> Fact {
    Fact { dt: Some(dt), shape: Some(dims), value: None }
}

fn scalar_i32(v: i64) -> Tensor {
    Tensor { dt: DatumType::Int32, shape: vec![1], data: vec![v] }
}

fn full_fact_of(t: &Tensor) -> Fact {
    Fact {
        dt: Some(t.dt),
        shape: Some(t.shape.iter().map(|d| Dim::Fixed(*d)).collect()),
        value: Some(t.duplicate()),
    }
}

#[test]
fn unify_type_conflict_leaves_inputs_unchanged() {
    let a = f32_fact();
    let b = i32_fact();
    let r = a.unify(&b);
    assert_eq!(r.err(), Some(TypeConflict::DatumType));
    // both inputs are exactly as they were
    assert!(a.same(&f32_fact()));
    assert!(b.same(&i32_fact()));
}

#[test]
fn unify_joins_partial_facts() {
    let a = f32_fact();
    let b = Fact { dt: None, shape: Some(vec![Dim::Fixed(2), Dim::Stream]), value: None };
    let j = a.unify(&b).unwrap();
    assert_eq!(j.dt, Some(DatumType::Float32));
    assert_eq!(j.shape.as_deref(), Some(&[Dim::Fixed(2), Dim::Stream][..]));
    assert!(j.value.is_none());
}

#[test]
fn unify_shape_conflict() {
    let a = typed_fact(DatumType::Float32, vec![Dim::Fixed(2)]);
    let b = typed_fact(DatumType::Float32, vec![Dim::Fixed(3)]);
    assert_eq!(a.unify(&b).err(), Some(TypeConflict::Shape));
}

#[test]
fn unify_value_conflict() {
    let a = full_fact_of(&scalar_i32(4));
    let b = full_fact_of(&scalar_i32(5));
    assert_eq!(a.unify(&b).err(), Some(TypeConflict::Value));
}

#[test]
fn builder_rejects_duplicate_names() {
    let mut g = Graph::empty();
    g.add_node("x".to_string(), Op::Source, vec![f32_fact()]).unwrap();
    let e = g.add_node("x".to_string(), Op::Identity, vec![f32_fact()]);
    assert_eq!(e.err(), Some(GraphError::DuplicateName));
}

#[test]
fn builder_rejects_self_cycle() {
    let mut g = Graph::empty();
    let n = g.add_node("a".to_string(), Op::Identity, vec![f32_fact()]).unwrap();
    let e = g.add_edge(Outlet { node: n, slot: 0 }, n);
    assert_eq!(e.err(), Some(GraphError::Cycle));
}

#[test]
fn node_by_name_finds_live_nodes() {
    let mut g = Graph::empty();
    let a = g.add_node("in".to_string(), Op::Source, vec![f32_fact()]).unwrap();
    let b = g.add_node("out".to_string(), Op::Identity, vec![f32_fact()]).unwrap();
    assert_eq!(g.node_by_name(&"in".to_string()), Some(a));
    assert_eq!(g.node_by_name(&"out".to_string()), Some(b));
    assert_eq!(g.node_by_name(&"missing".to_string()), None);
}

/// A source feeding one identity, ports designated.
fn small_graph() -> (Graph, usize, usize) {
    let mut g = Graph::empty();
    let s = g.add_node("in".to_string(), Op::Source, vec![f32_fact()]).unwrap();
    let i = g.add_node("id".to_string(), Op::Identity, vec![f32_fact()]).unwrap();
    g.add_edge(Outlet { node: s, slot: 0 }, i).unwrap();
    g.set_input_outlets(vec![Outlet { node: s, slot: 0 }]).unwrap();
    g.set_output_outlets(vec![Outlet { node: i, slot: 0 }]).unwrap();
    (g, s, i)
}

#[test]
fn patch_atomicity_on_stale_outlet() {
    let (mut g, _s, _i) = small_graph();
    let before = g.duplicate();
    let mut p = Patch::empty();
    // tap an outlet that does not exist
    p.tap(Outlet { node: 99, slot: 0 });
    let r = p.apply(&mut g);
    assert_eq!(r.err(), Some(PatchError::StaleOutlet));
    assert!(g.same(&before));
}

#[test]
fn patch_atomicity_on_dangling_wire() {
    let (mut g, _s, i) = small_graph();
    let before = g.duplicate();
    let mut p = Patch::empty();
    // shunt the identity's outlet to a wire pointing outside the patch
    p.shunt(Outlet { node: i, slot: 0 }, PatchSource::Local(3, 0));
    let r = p.apply(&mut g);
    assert_eq!(r.err(), Some(PatchError::DanglingInlet));
    assert!(g.same(&before));
}

#[test]
fn patch_atomicity_on_duplicate_name() {
    let (mut g, s, _i) = small_graph();
    let before = g.duplicate();
    let mut p = Patch::empty();
    let tap = p.tap(Outlet { node: s, slot: 0 });
    // a new node under a name that is already live
    p.add_node("id".to_string(), Op::AddConst(1), vec![tap], vec![f32_fact()]);
    let r = p.apply(&mut g);
    assert_eq!(r.err(), Some(PatchError::DuplicateName));
    assert!(g.same(&before));
}

#[test]
fn patch_atomicity_on_cycle() {
    let (mut g, _s, i) = small_graph();
    let before = g.duplicate();
    let mut p = Patch::empty();
    // a new node reading the identity, shunted in as the identity's input:
    // that closes a loop between the two
    let tap = p.tap(Outlet { node: i, slot: 0 });
    let local = p.add_node("loop".to_string(), Op::AddConst(1), vec![tap], vec![f32_fact()]);
    p.shunt(Outlet { node: 0, slot: 0 }, local);
    let r = p.apply(&mut g);
    assert_eq!(r.err(), Some(PatchError::Cycle));
    assert!(g.same(&before));
}

#[test]
fn patch_replaces_a_node() {
    let (mut g, s, i) = small_graph();
    let mut p = Patch::empty();
    let tap = p.tap(Outlet { node: s, slot: 0 });
    let local = p.add_node("scale".to_string(), Op::MulConst(2), vec![tap], vec![f32_fact()]);
    p.shunt(Outlet { node: i, slot: 0 }, local);
    p.obliterate(i);
    p.apply(&mut g).unwrap();
    // the identity is gone, the new node carries its readers
    assert_eq!(g.node_by_name(&"id".to_string()), None);
    let n = g.node_by_name(&"scale".to_string()).unwrap();
    assert!(matches!(g.nodes[n].op, Op::MulConst(2)));
    assert_eq!(g.outputs, vec![Outlet { node: n, slot: 0 }]);
    assert!(matches!(g.nodes[i].op, Op::Removed));
}

#[test]
fn stage_tokens_roundtrip() {
    let all = [
        Stage::Load,
        Stage::Analyse,
        Stage::Incorporate,
        Stage::Type,
        Stage::Declutter,
        Stage::ConcretizeStreamDim,
        Stage::ConcretizeStreamDimDeclutter,
        Stage::Pulse,
        Stage::PulseToType,
        Stage::PulseDeclutter,
        Stage::Optimize,
    ];
    for s in all {
        let tok = stage_token(s).to_string();
        assert_eq!(stage_from_token(&tok), Some(s));
    }
    assert_eq!(stage_from_token(&"declutterr".to_string()), None);
    assert_eq!(stage_token(Stage::ConcretizeStreamDimDeclutter), "concretize-stream-dim-declutter");
}

#[test]
fn builder_rejects_invalid_wiring() {
    let mut g = Graph::empty();
    let n = g.add_node("a".to_string(), Op::Source, vec![f32_fact()]).unwrap();
    // a slot that does not exist
    assert_eq!(g.add_edge(Outlet { node: n, slot: 3 }, n).err(), Some(GraphError::InvalidOutlet));
    // a node that does not exist
    assert_eq!(g.add_edge(Outlet { node: n, slot: 0 }, 7).err(), Some(GraphError::InvalidNode));
    // a designated input must stay a source
    g.set_input_outlets(vec![Outlet { node: n, slot: 0 }]).unwrap();
    assert_eq!(g.replace_op(n, Op::Identity).err(), Some(GraphError::BadOp));
    // and nothing may be tombstoned outside a patch
    assert_eq!(g.replace_op(n, Op::Removed).err(), Some(GraphError::BadOp));
}

#[test]
fn set_outlet_fact_overrides_and_validates() {
    let (mut g, s, _i) = small_graph();
    let fact = typed_fact(DatumType::Float32, vec![Dim::Fixed(8)]);
    g.set_outlet_fact(Outlet { node: s, slot: 0 }, fact).unwrap();
    assert_eq!(g.nodes[s].outputs[0].fact.shape.as_deref(), Some(&[Dim::Fixed(8)][..]));
    let bad = g.set_outlet_fact(Outlet { node: 9, slot: 0 }, f32_fact());
    assert_eq!(bad.err(), Some(GraphError::InvalidOutlet));
}
