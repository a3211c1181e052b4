//! The staged pipeline end to end: analysis, decluttering, pulsing,
//! optimization, the driver, and the laws the library proves.

use graphpipe::analyse::analyse;
use graphpipe::driver::{run_pipeline, PipelineConfig, PipelineError, Stage};
use graphpipe::eval::{eval, pulse_step, sliding_sums, PulseState};
use graphpipe::fact::{DatumType, Dim, Fact, Tensor};
use graphpipe::graph::{Graph, Op, Outlet};
use graphpipe::ops::{AnalysisError, AnalysisErrorKind};
use graphpipe::rewrite::{declutter, incorporate, optimize};
use graphpipe::stream::{concretize_stream_dim, into_typed, to_pulsed, StreamError};
use graphpipe::eval::EvalError;
use graphpipe::fact::TypeConflict;

fn unknown() -> Fact {
    Fact::none()
}

fn typed(dt: DatumType, dims: Vec<Dim>) -> Fact {
    Fact { dt: Some(dt), shape: Some(dims), value: None }
}

fn vec_tensor(data: Vec<i64>) -> Tensor {
    Tensor { dt: DatumType::Int32, shape: vec![data.len()], data }
}

fn full_fact_of(t: &Tensor) -> Fact {
    Fact {
        dt: Some(t.dt),
        shape: Some(t.shape.iter().map(|d| Dim::Fixed(*d)).collect()),
        value: Some(t.duplicate()),
    }
}

/// in -> (*3) -> (+4) -> out, all facts unknown except the input.
fn affine_chain() -> Graph {
    let mut g = Graph::empty();
    let s = g
        .add_node(
            "in".to_string(),
            Op::Source,
            vec![typed(DatumType::Int32, vec![Dim::Fixed(4)])],
        )
        .unwrap();
    let m = g.add_node("mul".to_string(), Op::MulConst(3), vec![unknown()]).unwrap();
    let a = g.add_node("add".to_string(), Op::AddConst(4), vec![unknown()]).unwrap();
    g.add_edge(Outlet { node: s, slot: 0 }, m).unwrap();
    g.add_edge(Outlet { node: m, slot: 0 }, a).unwrap();
    g.set_input_outlets(vec![Outlet { node: s, slot: 0 }]).unwrap();
    g.set_output_outlets(vec![Outlet { node: a, slot: 0 }]).unwrap();
    g
}

#[test]
fn analyse_infers_shapes_forward() {
    let g = affine_chain();
    let h = analyse(g, false).unwrap();
    let a = h.node_by_name(&"add".to_string()).unwrap();
    let f = &h.nodes[a].outputs[0].fact;
    assert_eq!(f.dt, Some(DatumType::Int32));
    assert_eq!(f.shape.as_deref(), Some(&[Dim::Fixed(4)][..]));
}

#[test]
fn analyse_is_a_fixed_point() {
    // running the analyser on its own output changes nothing
    let g = affine_chain();
    let h = analyse(g, false).unwrap();
    let copy = h.duplicate();
    let h2 = analyse(h, false).unwrap();
    assert!(h2.same(&copy));
}

#[test]
fn analyse_collects_all_conflicts() {
    // two constants disagreeing with their declared output facts
    let mut g = Graph::empty();
    let t = vec_tensor(vec![7]);
    g.add_node("c1".to_string(), Op::Const(t.duplicate()), vec![typed(
        DatumType::Float32,
        vec![Dim::Fixed(1)],
    )])
    .unwrap();
    g.add_node("c2".to_string(), Op::Const(t), vec![typed(
        DatumType::Float32,
        vec![Dim::Fixed(1)],
    )])
    .unwrap();
    let errs = analyse(g.duplicate(), false).err().unwrap();
    assert_eq!(errs.len(), 2);
    assert_eq!(
        errs[0],
        AnalysisError { node: 0, kind: AnalysisErrorKind::Conflict(TypeConflict::DatumType) }
    );
    // fail-fast mode stops at the first
    let errs2 = analyse(g, true).err().unwrap();
    assert_eq!(errs2.len(), 1);
    assert_eq!(errs2[0].node, 0);
}

#[test]
fn declutter_is_idempotent() {
    // a unit operation, an identity, and a dead branch all in one graph
    let mut g = Graph::empty();
    let s = g
        .add_node(
            "in".to_string(),
            Op::Source,
            vec![typed(DatumType::Int32, vec![Dim::Fixed(2)])],
        )
        .unwrap();
    let z = g
        .add_node("zero".to_string(), Op::AddConst(0), vec![typed(
            DatumType::Int32,
            vec![Dim::Fixed(2)],
        )])
        .unwrap();
    let i = g
        .add_node("id".to_string(), Op::Identity, vec![typed(
            DatumType::Int32,
            vec![Dim::Fixed(2)],
        )])
        .unwrap();
    let d = g
        .add_node("dead".to_string(), Op::MulConst(5), vec![typed(
            DatumType::Int32,
            vec![Dim::Fixed(2)],
        )])
        .unwrap();
    g.add_edge(Outlet { node: s, slot: 0 }, z).unwrap();
    g.add_edge(Outlet { node: z, slot: 0 }, i).unwrap();
    g.add_edge(Outlet { node: s, slot: 0 }, d).unwrap();
    g.set_input_outlets(vec![Outlet { node: s, slot: 0 }]).unwrap();
    g.set_output_outlets(vec![Outlet { node: i, slot: 0 }]).unwrap();

    let once = declutter(g).unwrap();
    let copy = once.duplicate();
    let twice = declutter(once).unwrap();
    assert!(twice.same(&copy));
    // the dead branch is gone
    assert_eq!(twice.node_by_name(&"dead".to_string()), None);
}

#[test]
fn declutter_folds_constants() {
    let mut g = Graph::empty();
    let t = vec_tensor(vec![1, 2, 3]);
    let c = g.add_node("c".to_string(), Op::Const(t.duplicate()), vec![full_fact_of(&t)]).unwrap();
    let folded = vec_tensor(vec![5, 10, 15]);
    let m = g
        .add_node("scale".to_string(), Op::MulConst(5), vec![typed(
            DatumType::Int32,
            vec![Dim::Fixed(3)],
        )])
        .unwrap();
    g.add_edge(Outlet { node: c, slot: 0 }, m).unwrap();
    g.set_output_outlets(vec![Outlet { node: m, slot: 0 }]).unwrap();
    let h = declutter(g).unwrap();
    let n = h.node_by_name(&"scale".to_string()).unwrap();
    match &h.nodes[n].op {
        Op::Const(v) => assert!(v.same(&folded)),
        other => panic!("expected a folded constant, got {:?} discriminant", op_tag(other)),
    }
}

fn op_tag(op: &Op) -> &'static str {
    match op {
        Op::Source => "source",
        Op::Const(_) => "const",
        Op::Identity => "identity",
        Op::AddConst(_) => "add-const",
        Op::MulConst(_) => "mul-const",
        Op::Affine { .. } => "affine",
        Op::SlidingSum { .. } => "sliding-sum",
        Op::PulsedSlidingSum { .. } => "pulsed-sliding-sum",
        Op::LinearKernel { .. } => "linear-kernel",
        Op::Removed => "removed",
    }
}

#[test]
fn incorporate_fuses_mul_then_add() {
    let g = analyse(affine_chain(), false).unwrap();
    let h = incorporate(g).unwrap();
    let n = h.node_by_name(&"add".to_string()).unwrap();
    assert!(matches!(h.nodes[n].op, Op::Affine { mul: 3, add: 4 }));
    assert_eq!(h.node_by_name(&"mul".to_string()), None);
}

#[test]
fn optimize_selects_concrete_kernel_and_preserves_signature() {
    let g = analyse(affine_chain(), false).unwrap();
    let h = incorporate(g).unwrap();
    // record the designated ports' signature: names, types, shapes
    let sig = |g: &Graph| -> Vec<(String, Option<DatumType>, Option<Vec<Dim>>)> {
        g.inputs
            .iter()
            .chain(g.outputs.iter())
            .map(|o| {
                let n = &g.nodes[o.node];
                (n.name.clone(), n.outputs[o.slot].fact.dt, n.outputs[o.slot].fact.shape.clone())
            })
            .collect()
    };
    let before = sig(&h);
    let opt = optimize(h).unwrap();
    assert_eq!(sig(&opt), before);
    let n = opt.node_by_name(&"add".to_string()).unwrap();
    assert!(matches!(opt.nodes[n].op, Op::LinearKernel { mul: 3, add: 4 }));
}

#[test]
fn declutter_preserves_signature() {
    let g = analyse(affine_chain(), false).unwrap();
    let sig = |g: &Graph| -> Vec<(String, Option<DatumType>, Option<Vec<Dim>>)> {
        g.inputs
            .iter()
            .chain(g.outputs.iter())
            .map(|o| {
                let n = &g.nodes[o.node];
                (n.name.clone(), n.outputs[o.slot].fact.dt, n.outputs[o.slot].fact.shape.clone())
            })
            .collect()
    };
    let before = sig(&g);
    let h = declutter(g).unwrap();
    assert_eq!(sig(&h), before);
}

#[test]
fn eval_computes_exact_values() {
    let g = analyse(affine_chain(), false).unwrap();
    let outs = eval(&g, &vec![vec_tensor(vec![1, 2, 3, 4])]).unwrap();
    assert_eq!(outs.len(), 1);
    // x * 3 + 4
    assert_eq!(outs[0].data, vec![7, 10, 13, 16]);
}

#[test]
fn sliding_sums_exact_values() {
    let s = sliding_sums(&vec![1, 2, 3, 4], 2);
    assert_eq!(s, vec![1, 3, 5, 7]);
    let s3 = sliding_sums(&vec![5, 5, 5, 5, 5], 3);
    assert_eq!(s3, vec![5, 10, 15, 15, 15]);
}

/// in[S] -> sliding-sum(3) -> (+1) -> out.
fn stream_graph() -> Graph {
    let mut g = Graph::empty();
    let s = g
        .add_node("in".to_string(), Op::Source, vec![typed(DatumType::Int32, vec![Dim::Stream])])
        .unwrap();
    let w = g
        .add_node("window".to_string(), Op::SlidingSum { window: 3 }, vec![unknown()])
        .unwrap();
    let a = g.add_node("bias".to_string(), Op::AddConst(1), vec![unknown()]).unwrap();
    g.add_edge(Outlet { node: s, slot: 0 }, w).unwrap();
    g.add_edge(Outlet { node: w, slot: 0 }, a).unwrap();
    g.set_input_outlets(vec![Outlet { node: s, slot: 0 }]).unwrap();
    g.set_output_outlets(vec![Outlet { node: a, slot: 0 }]).unwrap();
    g
}

#[test]
fn pulse_equivalence_over_three_pulses() {
    // the typed streaming graph
    let typed_g = into_typed(analyse(stream_graph(), false).unwrap()).unwrap();

    // whole-stream reference: bind the stream to its true length and run
    let full_input: Vec<i64> = vec![3, 1, 4, 1, 5, 9, 2, 6, 5, 3, 5, 8];
    let unpulsed = concretize_stream_dim(typed_g.duplicate(), 12).unwrap();
    let expected = eval(&unpulsed, &vec![vec_tensor(full_input.clone())]).unwrap();

    // pulsed run: windows of four, three pulses
    let pulsed = to_pulsed(typed_g, 4).unwrap();
    let mut state = PulseState::init(&pulsed);
    let mut got: Vec<i64> = Vec::new();
    for chunk in full_input.chunks(4) {
        let outs = pulse_step(&pulsed, &mut state, &vec![vec_tensor(chunk.to_vec())]).unwrap();
        got.extend_from_slice(&outs[0].data);
    }
    assert_eq!(got, expected[0].data);
}

#[test]
fn pulse_rejects_untyped_graphs() {
    let g = stream_graph();  // facts not yet inferred
    assert!(to_pulsed(g, 4).is_err());
}

#[test]
fn driver_full_run_and_stop_at_agree() {
    let cfg_full = PipelineConfig {
        stop_at: Stage::Optimize,
        pulse: None,
        stream_dim: None,
        fail_fast: false,
        keep_stage_snapshots: true,
    };
    let run = run_pipeline(affine_chain(), &cfg_full).ok().unwrap();
    // the snapshot taken before the optimize stage is the declutter output
    let before_optimize = run
        .snapshots
        .iter()
        .find(|(s, _)| *s == Stage::Optimize)
        .map(|(_, g)| g.duplicate())
        .unwrap();

    let cfg_stop = PipelineConfig { stop_at: Stage::Declutter, keep_stage_snapshots: false, ..cfg_full };
    let stopped = run_pipeline(affine_chain(), &cfg_stop).ok().unwrap();
    assert!(stopped.graph.same(&before_optimize));
    // no optimizer-selected operation appears in the stopped result
    for node in &stopped.graph.nodes {
        assert!(!matches!(node.op, Op::LinearKernel { .. }));
    }
    // while the full run did select one
    assert!(run.graph.nodes.iter().any(|n| matches!(n.op, Op::LinearKernel { .. })));
}

#[test]
fn driver_reports_failing_stage_with_last_good_snapshot() {
    let mut g = Graph::empty();
    let t = vec_tensor(vec![7]);
    g.add_node("c".to_string(), Op::Const(t), vec![typed(
        DatumType::Float32,
        vec![Dim::Fixed(1)],
    )])
    .unwrap();
    let copy = g.duplicate();
    let cfg = PipelineConfig {
        stop_at: Stage::Optimize,
        pulse: None,
        stream_dim: None,
        fail_fast: true,
        keep_stage_snapshots: false,
    };
    let failure = run_pipeline(g, &cfg).err().unwrap();
    assert_eq!(failure.stage, Stage::Analyse);
    assert!(failure.snapshot.same(&copy));
    match failure.error {
        PipelineError::Analysis(errs) => assert_eq!(errs.len(), 1),
        _ => panic!("expected an analysis failure"),
    }
}

#[test]
fn driver_rejects_pulse_with_stream_dim() {
    let cfg = PipelineConfig {
        stop_at: Stage::Optimize,
        pulse: Some(4),
        stream_dim: Some(8),
        fail_fast: false,
        keep_stage_snapshots: false,
    };
    let failure = run_pipeline(affine_chain(), &cfg).err().unwrap();
    assert!(matches!(failure.error, PipelineError::Config));
}

#[test]
fn driver_pulse_branch_runs_to_optimize() {
    let cfg = PipelineConfig {
        stop_at: Stage::Optimize,
        pulse: Some(4),
        stream_dim: None,
        fail_fast: false,
        keep_stage_snapshots: false,
    };
    let run = run_pipeline(stream_graph(), &cfg).ok().unwrap();
    // the streaming window is now its pulsed form, and no symbolic dimension
    // is left anywhere
    let n = run.graph.node_by_name(&"window".to_string()).unwrap();
    assert!(matches!(run.graph.nodes[n].op, Op::PulsedSlidingSum { window: 3 }));
    for node in &run.graph.nodes {
        for slot in &node.outputs {
            if let Some(dims) = &slot.fact.shape {
                assert!(dims.iter().all(|d| matches!(d, Dim::Fixed(_))));
            }
        }
    }
}

#[test]
fn concretize_branch_replaces_stream_dim() {
    let cfg = PipelineConfig {
        stop_at: Stage::ConcretizeStreamDimDeclutter,
        pulse: None,
        stream_dim: Some(10),
        fail_fast: false,
        keep_stage_snapshots: false,
    };
    let run = run_pipeline(stream_graph(), &cfg).ok().unwrap();
    let n = run.graph.node_by_name(&"window".to_string()).unwrap();
    assert_eq!(
        run.graph.nodes[n].outputs[0].fact.shape.as_deref(),
        Some(&[Dim::Fixed(10)][..])
    );
}

#[test]
fn analyse_reports_arity_errors() {
    // an identity with no input cannot be typed
    let mut g = Graph::empty();
    g.add_node("lonely".to_string(), Op::Identity, vec![unknown()]).unwrap();
    let errs = analyse(g, false).err().unwrap();
    assert_eq!(errs, vec![AnalysisError { node: 0, kind: AnalysisErrorKind::Arity }]);
}

#[test]
fn pulse_rejects_zero_length_and_double_pulsing() {
    let typed_g = into_typed(analyse(stream_graph(), false).unwrap()).unwrap();
    assert_eq!(to_pulsed(typed_g.duplicate(), 0).err(), Some(StreamError::InvalidPulse));
    let pulsed = to_pulsed(typed_g, 4).unwrap();
    // pulsing an already pulsed graph names the pulsed node
    let n = pulsed.node_by_name(&"window".to_string()).unwrap();
    assert_eq!(to_pulsed(pulsed, 4).err(), Some(StreamError::Unsupported { node: n }));
}

#[test]
fn eval_refuses_pulsed_operations() {
    let typed_g = into_typed(analyse(stream_graph(), false).unwrap()).unwrap();
    let pulsed = to_pulsed(typed_g, 4).unwrap();
    let n = pulsed.node_by_name(&"window".to_string()).unwrap();
    let r = eval(&pulsed, &vec![vec_tensor(vec![1, 2, 3, 4])]);
    assert_eq!(r.err(), Some(EvalError::Unsupported { node: n }));
}
