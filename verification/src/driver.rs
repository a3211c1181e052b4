//! The pipeline driver: an explicit staged sequence from a freshly loaded
//! graph to an optimized one.
//!
//! The driver owns the graph exclusively and passes it by value into each
//! stage; on failure it reports the stage, the error and the snapshot from
//! immediately before the failing stage; on success at the configured
//! stop-at stage it returns that stage's output instead of continuing. The
//! stage sequence and the stop condition are an explicit table, not hidden
//! control flow.

use vstd::prelude::*;

use crate::analyse::{analyse, analyse_spec, sem_wf};
use crate::graph::{Graph, GraphModel};
use crate::ops::AnalysisError;
use crate::rewrite::{
    declutter, incorporate, incorporate_from, kernel_free, optimize, optimize_spec, rewrite_spec,
    Catalogue, RewriteError,
};
use crate::stream::{
    concretize_stream_dim, first_pulsed, first_untyped, into_typed, pulse_to_typed, subst_graph,
    to_pulsed, StreamError,
};

verus! {

/// The stages of the pipeline, in their running order. These names are the
/// public, stable vocabulary for stop-at selection.
#[derive(Clone, Copy, PartialEq, Eq, Structural, Debug)]
pub enum Stage {
    Load,
    Analyse,
    Incorporate,
    Type,
    Declutter,
    ConcretizeStreamDim,
    ConcretizeStreamDimDeclutter,
    Pulse,
    PulseToType,
    PulseDeclutter,
    Optimize,
}

/// The caller-facing token of each stage.
pub open spec fn stage_name(s: Stage) -> Seq<char> {
    match s {
        Stage::Load => "load"@,
        Stage::Analyse => "analyse"@,
        Stage::Incorporate => "incorporate"@,
        Stage::Type => "type"@,
        Stage::Declutter => "declutter"@,
        Stage::ConcretizeStreamDim => "concretize-stream-dim"@,
        Stage::ConcretizeStreamDimDeclutter => "concretize-stream-dim-declutter"@,
        Stage::Pulse => "pulse"@,
        Stage::PulseToType => "pulse-to-type"@,
        Stage::PulseDeclutter => "pulse-declutter"@,
        Stage::Optimize => "optimize"@,
    }
}

/// The token of a stage.
pub fn stage_token(s: Stage) -> (r: &'static str)
    ensures
        r@ == stage_name(s),
{
    match s {
        Stage::Load => "load",
        Stage::Analyse => "analyse",
        Stage::Incorporate => "incorporate",
        Stage::Type => "type",
        Stage::Declutter => "declutter",
        Stage::ConcretizeStreamDim => "concretize-stream-dim",
        Stage::ConcretizeStreamDimDeclutter => "concretize-stream-dim-declutter",
        Stage::Pulse => "pulse",
        Stage::PulseToType => "pulse-to-type",
        Stage::PulseDeclutter => "pulse-declutter",
        Stage::Optimize => "optimize",
    }
}

/// Parse a stage token; exactly the eleven public names are accepted.
pub fn stage_from_token(name: &String) -> (r: Option<Stage>)
    ensures
        match r {
            Some(s) => name@ == stage_name(s),
            None => forall|s: Stage| name@ != stage_name(s),
        },
{
    proof {
        reveal_strlit("load");
        reveal_strlit("analyse");
        reveal_strlit("incorporate");
        reveal_strlit("type");
        reveal_strlit("declutter");
        reveal_strlit("concretize-stream-dim");
        reveal_strlit("concretize-stream-dim-declutter");
        reveal_strlit("pulse");
        reveal_strlit("pulse-to-type");
        reveal_strlit("pulse-declutter");
        reveal_strlit("optimize");
    }
    let candidates: [Stage; 11] = [
        Stage::Load,
        Stage::Analyse,
        Stage::Incorporate,
        Stage::Type,
        Stage::Declutter,
        Stage::ConcretizeStreamDim,
        Stage::ConcretizeStreamDimDeclutter,
        Stage::Pulse,
        Stage::PulseToType,
        Stage::PulseDeclutter,
        Stage::Optimize,
    ];
    let mut i: usize = 0;
    while i < 11
        invariant
            i <= 11,
            forall|j: int| 0 <= j < 11 ==> candidates@[j] == seq![
                Stage::Load,
                Stage::Analyse,
                Stage::Incorporate,
                Stage::Type,
                Stage::Declutter,
                Stage::ConcretizeStreamDim,
                Stage::ConcretizeStreamDimDeclutter,
                Stage::Pulse,
                Stage::PulseToType,
                Stage::PulseDeclutter,
                Stage::Optimize,
            ][j],
            forall|j: int| 0 <= j < i ==> name@ != stage_name(candidates@[j]),
        decreases 11 - i,
    {
        let c = candidates[i];
        let token = stage_token(c).to_owned();
        if *name == token {
            return Some(c);
        }
        i += 1;
    }
    proof {
        assert forall|s: Stage| name@ != stage_name(s) by {
            match s {
                Stage::Load => {
                    assert(name@ != stage_name(candidates@[0]));
                },
                Stage::Analyse => {
                    assert(name@ != stage_name(candidates@[1]));
                },
                Stage::Incorporate => {
                    assert(name@ != stage_name(candidates@[2]));
                },
                Stage::Type => {
                    assert(name@ != stage_name(candidates@[3]));
                },
                Stage::Declutter => {
                    assert(name@ != stage_name(candidates@[4]));
                },
                Stage::ConcretizeStreamDim => {
                    assert(name@ != stage_name(candidates@[5]));
                },
                Stage::ConcretizeStreamDimDeclutter => {
                    assert(name@ != stage_name(candidates@[6]));
                },
                Stage::Pulse => {
                    assert(name@ != stage_name(candidates@[7]));
                },
                Stage::PulseToType => {
                    assert(name@ != stage_name(candidates@[8]));
                },
                Stage::PulseDeclutter => {
                    assert(name@ != stage_name(candidates@[9]));
                },
                Stage::Optimize => {
                    assert(name@ != stage_name(candidates@[10]));
                },
            }
        }
    }
    None
}

/// The configuration surface the driver consumes. A pulse length and a
/// concrete streaming-dimension value are mutually exclusive.
#[derive(Clone, Copy, PartialEq, Eq, Structural, Debug)]
pub struct PipelineConfig {
    /// Stop after this stage and return its output.
    pub stop_at: Stage,
    /// Rewrite to fixed-size pulses of this length.
    pub pulse: Option<usize>,
    /// Substitute this length for the streaming dimension.
    pub stream_dim: Option<usize>,
    /// Abort analysis at the first conflict instead of collecting all.
    pub fail_fast: bool,
    /// Retain a snapshot before every stage, for diagnostics.
    pub keep_stage_snapshots: bool,
}

/// Everything a stage can fail with.
pub enum PipelineError {
    /// The configuration asked for a pulse length and a stream-dimension
    /// value at once.
    Config,
    /// Analysis conflicts.
    Analysis(Vec<AnalysisError>),
    /// A rewrite pass rejected a rule's patch.
    Rewrite(RewriteError),
    /// A lowering stage found a partial fact or an unsupported operation.
    Stream(StreamError),
}

/// Mathematical model of a pipeline error.
pub ghost enum PipelineErrorModel {
    Config,
    Analysis(Seq<AnalysisError>),
    Rewrite(RewriteError),
    Stream(StreamError),
}

impl View for PipelineError {
    type V = PipelineErrorModel;

    open spec fn view(&self) -> PipelineErrorModel {
        match self {
            PipelineError::Config => PipelineErrorModel::Config,
            PipelineError::Analysis(v) => PipelineErrorModel::Analysis(v@),
            PipelineError::Rewrite(e) => PipelineErrorModel::Rewrite(*e),
            PipelineError::Stream(e) => PipelineErrorModel::Stream(*e),
        }
    }
}

/// The ordered stage table a configuration selects: the two optional
/// branches are mutually exclusive.
pub open spec fn stage_list(cfg: PipelineConfig) -> Seq<Stage> {
    let head = seq![
        Stage::Load,
        Stage::Analyse,
        Stage::Incorporate,
        Stage::Type,
        Stage::Declutter,
    ];
    let mid = if cfg.stream_dim is Some {
        seq![Stage::ConcretizeStreamDim, Stage::ConcretizeStreamDimDeclutter]
    } else if cfg.pulse is Some {
        seq![Stage::Pulse, Stage::PulseToType, Stage::PulseDeclutter]
    } else {
        Seq::empty()
    };
    head + mid + seq![Stage::Optimize]
}

/// What one stage computes from the current graph.
pub open spec fn stage_apply(s: Stage, cfg: PipelineConfig, g: GraphModel) -> Result<
    GraphModel,
    PipelineErrorModel,
> {
    match s {
        Stage::Load => Ok(g),
        Stage::Analyse => {
            match analyse_spec(g, cfg.fail_fast) {
                Ok(h) => Ok(h),
                Err(errs) => Err(PipelineErrorModel::Analysis(errs)),
            }
        },
        Stage::Incorporate => {
            match incorporate_from(g, 0) {
                Ok(h) => Ok(h),
                Err(e) => Err(PipelineErrorModel::Rewrite(e)),
            }
        },
        Stage::Type => {
            match first_untyped(g, false, 0, 0) {
                None => Ok(g),
                Some((n, sl)) => Err(
                    PipelineErrorModel::Stream(
                        StreamError::UnresolvedShape { node: n as usize, slot: sl as usize },
                    ),
                ),
            }
        },
        Stage::Declutter | Stage::ConcretizeStreamDimDeclutter | Stage::PulseDeclutter => {
            match rewrite_spec(Catalogue::Declutter, g) {
                Ok(h) => Ok(h),
                Err(e) => Err(PipelineErrorModel::Rewrite(e)),
            }
        },
        Stage::ConcretizeStreamDim => {
            match cfg.stream_dim {
                Some(v) => {
                    if v >= 1 {
                        Ok(subst_graph(g, v, false))
                    } else {
                        Err(PipelineErrorModel::Stream(StreamError::InvalidPulse))
                    }
                },
                None => Err(PipelineErrorModel::Config),
            }
        },
        Stage::Pulse => {
            match cfg.pulse {
                Some(k) => {
                    if k == 0 {
                        Err(PipelineErrorModel::Stream(StreamError::InvalidPulse))
                    } else {
                        match first_untyped(g, false, 0, 0) {
                            Some((n, sl)) => Err(
                                PipelineErrorModel::Stream(
                                    StreamError::UnresolvedShape {
                                        node: n as usize,
                                        slot: sl as usize,
                                    },
                                ),
                            ),
                            None => {
                                match first_pulsed(g, 0) {
                                    Some(n) => Err(
                                        PipelineErrorModel::Stream(
                                            StreamError::Unsupported { node: n as usize },
                                        ),
                                    ),
                                    None => Ok(subst_graph(g, k, true)),
                                }
                            },
                        }
                    }
                },
                None => Err(PipelineErrorModel::Config),
            }
        },
        Stage::PulseToType => {
            match first_untyped(g, true, 0, 0) {
                None => Ok(g),
                Some((n, sl)) => Err(
                    PipelineErrorModel::Stream(
                        StreamError::UnresolvedShape { node: n as usize, slot: sl as usize },
                    ),
                ),
            }
        },
        Stage::Optimize => {
            match optimize_spec(g) {
                Ok(h) => Ok(h),
                Err(e) => Err(PipelineErrorModel::Rewrite(e)),
            }
        },
    }
}

/// The staged run from stage `i` on: each stage consumes the current graph;
/// a failure reports the stage, the error, and the graph from immediately
/// before the failing stage; success at the stop-at stage ends the run.
pub open spec fn run_stages(
    g: GraphModel,
    cfg: PipelineConfig,
    stages: Seq<Stage>,
    i: int,
) -> Result<GraphModel, (Stage, GraphModel, PipelineErrorModel)>
    decreases stages.len() - i,
{
    if i < 0 || i >= stages.len() {
        Ok(g)
    } else {
        match stage_apply(stages[i], cfg, g) {
            Err(e) => Err((stages[i], g, e)),
            Ok(h) => {
                if stages[i] == cfg.stop_at {
                    Ok(h)
                } else {
                    run_stages(h, cfg, stages, i + 1)
                }
            },
        }
    }
}

/// What the driver computes for a configuration.
pub open spec fn pipeline_spec(g: GraphModel, cfg: PipelineConfig) -> Result<
    GraphModel,
    (Stage, GraphModel, PipelineErrorModel),
> {
    if cfg.pulse is Some && cfg.stream_dim is Some {
        Err((Stage::Load, g, PipelineErrorModel::Config))
    } else {
        run_stages(g, cfg, stage_list(cfg), 0)
    }
}

/// The run of the prefix of the stage table ending at index `j`, ignoring
/// any stop-at setting.
pub open spec fn run_to(
    g: GraphModel,
    cfg: PipelineConfig,
    stages: Seq<Stage>,
    i: int,
    j: int,
) -> Result<GraphModel, (Stage, GraphModel, PipelineErrorModel)>
    decreases j - i + 1,
{
    if i < 0 || i > j || i >= stages.len() {
        Ok(g)
    } else {
        match stage_apply(stages[i], cfg, g) {
            Err(e) => Err((stages[i], g, e)),
            Ok(h) => run_to(h, cfg, stages, i + 1, j),
        }
    }
}

/// A stage's outcome depends only on the graph and the stage options, never
/// on the stop-at setting.
proof fn lemma_stage_apply_stop_free(s: Stage, a: PipelineConfig, b: PipelineConfig, g: GraphModel)
    requires
        a.pulse == b.pulse,
        a.stream_dim == b.stream_dim,
        a.fail_fast == b.fail_fast,
    ensures
        stage_apply(s, a, g) == stage_apply(s, b, g),
{
}

/// The stop-at contract: a run stopped at the stage standing at index `j`
/// returns exactly the graph that the prefix of the stage table up to and
/// including `j` produces — the very intermediate a longer run passes
/// through — and no later stage ever executes.
pub proof fn lemma_stop_at(
    g: GraphModel,
    cfg: PipelineConfig,
    stages: Seq<Stage>,
    i: int,
    j: int,
)
    requires
        0 <= i <= j < stages.len(),
        stages[j] == cfg.stop_at,
        forall|k: int| i <= k < j ==> stages[k] != cfg.stop_at,
    ensures
        run_stages(g, cfg, stages, i) == run_to(g, cfg, stages, i, j),
    decreases j - i,
{
    match stage_apply(stages[i], cfg, g) {
        Err(_) => {},
        Ok(h) => {
            if i < j {
                lemma_stop_at(h, cfg, stages, i + 1, j);
            }
        },
    }
}

/// A longer run agrees with the stopped run up to the stop stage: the prefix
/// it folds is the same fold, stage by stage, whatever stop-at it carries.
pub proof fn lemma_run_prefix_agrees(
    g: GraphModel,
    full: PipelineConfig,
    stopped: PipelineConfig,
    stages: Seq<Stage>,
    i: int,
    j: int,
)
    requires
        full.pulse == stopped.pulse,
        full.stream_dim == stopped.stream_dim,
        full.fail_fast == stopped.fail_fast,
        0 <= i,
        j < stages.len(),
    ensures
        run_to(g, full, stages, i, j) == run_to(g, stopped, stages, i, j),
    decreases j - i + 1,
{
    if 0 <= i <= j && i < stages.len() {
        lemma_stage_apply_stop_free(stages[i], full, stopped, g);
        match stage_apply(stages[i], full, g) {
            Err(_) => {},
            Ok(h) => {
                lemma_run_prefix_agrees(h, full, stopped, stages, i + 1, j);
            },
        }
    }
}

/// A stage failure: the stage, what it said, and the graph from immediately
/// before it ran (the last good state).
pub struct PipelineFailure {
    pub stage: Stage,
    pub error: PipelineError,
    pub snapshot: Graph,
}

/// A completed (or stopped) run: the resulting graph, and, when snapshots
/// were requested, the graph from before each completed stage paired with
/// that stage.
pub struct PipelineRun {
    pub graph: Graph,
    pub snapshots: Vec<(Stage, Graph)>,
}

/// The exec stage table for a configuration.
fn stage_table(cfg: &PipelineConfig) -> (r: Vec<Stage>)
    ensures
        r@ == stage_list(*cfg),
{
    let mut r: Vec<Stage> = Vec::new();
    r.push(Stage::Load);
    r.push(Stage::Analyse);
    r.push(Stage::Incorporate);
    r.push(Stage::Type);
    r.push(Stage::Declutter);
    if cfg.stream_dim.is_some() {
        r.push(Stage::ConcretizeStreamDim);
        r.push(Stage::ConcretizeStreamDimDeclutter);
    } else if cfg.pulse.is_some() {
        r.push(Stage::Pulse);
        r.push(Stage::PulseToType);
        r.push(Stage::PulseDeclutter);
    }
    r.push(Stage::Optimize);
    proof {
        assert(r@ =~= stage_list(*cfg));
    }
    r
}

/// Run the pipeline over `g` under `cfg`. On success the result is exactly
/// the staged fold `pipeline_spec` describes, stopped at `cfg.stop_at`; on
/// failure the error names the failing stage and carries the snapshot from
/// immediately before it.
#[verifier::rlimit(60)]
pub fn run_pipeline(g: Graph, cfg: &PipelineConfig) -> (r: Result<PipelineRun, PipelineFailure>)
    requires
        g@.wf(),
        sem_wf(g@),
    ensures
        match r {
            Ok(run) => {
                &&& pipeline_spec(g@, *cfg) == Ok::<
                    GraphModel,
                    (Stage, GraphModel, PipelineErrorModel),
                >(run.graph@)
                &&& run.graph@.wf()
                &&& sem_wf(run.graph@)
                &&& (!cfg.keep_stage_snapshots ==> run.snapshots@.len() == 0)
                &&& (kernel_free(g@) && cfg.stop_at != Stage::Optimize && stage_list(
                    *cfg,
                ).contains(cfg.stop_at) ==> kernel_free(run.graph@))
            },
            Err(f) => {
                &&& pipeline_spec(g@, *cfg) matches Err((st, snap, e)) && st == f.stage && snap
                    == f.snapshot@ && e == f.error@
                &&& f.snapshot@.wf()
                &&& sem_wf(f.snapshot@)
            },
        },
{
    if cfg.pulse.is_some() && cfg.stream_dim.is_some() {
        return Err(PipelineFailure {
            stage: Stage::Load,
            error: PipelineError::Config,
            snapshot: g,
        });
    }
    let stages = stage_table(cfg);
    let ghost g0 = g@;
    let mut cur = g;
    let mut snapshots: Vec<(Stage, Graph)> = Vec::new();
    let mut i: usize = 0;
    while i < stages.len()
        invariant
            g0 == g@,
            cur@.wf(),
            sem_wf(cur@),
            i <= stages.len(),
            stages@ == stage_list(*cfg),
            !(cfg.pulse is Some && cfg.stream_dim is Some),
            run_stages(g0, *cfg, stages@, 0) == run_stages(cur@, *cfg, stages@, i as int),
            !cfg.keep_stage_snapshots ==> snapshots@.len() == 0,
            forall|k: int| 0 <= k < i ==> stages@[k] != cfg.stop_at,
            kernel_free(g0) && cfg.stop_at != Stage::Optimize && stage_list(*cfg).contains(
                cfg.stop_at,
            ) ==> kernel_free(cur@),
        decreases stages.len() - i,
    {
        let stage = stages[i];
        // the last-good snapshot: the graph from immediately before this stage
        let backup = cur.duplicate();
        if cfg.keep_stage_snapshots {
            snapshots.push((stage, cur.duplicate()));
        }
        let ghost before = cur@;
        let outcome: Result<Graph, PipelineError> = match stage {
            Stage::Load => Ok(cur),
            Stage::Analyse => {
                match analyse(cur, cfg.fail_fast) {
                    Ok(h) => {
                        proof {
                            assert forall|n: int|
                                0 <= n < h@.nodes.len() implies (#[trigger] h@.nodes[n]).op
                                == before.nodes[n].op by {}
                            assert(kernel_free(before) ==> kernel_free(h@));
                        }
                        Ok(h)
                    },
                    Err(errs) => Err(PipelineError::Analysis(errs)),
                }
            },
            Stage::Incorporate => {
                match incorporate(cur) {
                    Ok(h) => {
                        proof {
                            assert(kernel_free(before) ==> kernel_free(h@));
                        }
                        Ok(h)
                    },
                    Err(e) => Err(PipelineError::Rewrite(e)),
                }
            },
            Stage::Type => {
                match into_typed(cur) {
                    Ok(h) => Ok(h),
                    Err(e) => Err(PipelineError::Stream(e)),
                }
            },
            Stage::Declutter | Stage::ConcretizeStreamDimDeclutter | Stage::PulseDeclutter => {
                match declutter(cur) {
                    Ok(h) => {
                        proof {
                            assert(kernel_free(before) ==> kernel_free(h@));
                        }
                        Ok(h)
                    },
                    Err(e) => Err(PipelineError::Rewrite(e)),
                }
            },
            Stage::ConcretizeStreamDim => {
                match cfg.stream_dim {
                    Some(v) => {
                        match concretize_stream_dim(cur, v) {
                            Ok(h) => Ok(h),
                            Err(e) => Err(PipelineError::Stream(e)),
                        }
                    },
                    None => Err(PipelineError::Config),
                }
            },
            Stage::Pulse => {
                match cfg.pulse {
                    Some(k) => {
                        match to_pulsed(cur, k) {
                            Ok(h) => Ok(h),
                            Err(e) => Err(PipelineError::Stream(e)),
                        }
                    },
                    None => Err(PipelineError::Config),
                }
            },
            Stage::PulseToType => {
                match pulse_to_typed(cur) {
                    Ok(h) => Ok(h),
                    Err(e) => Err(PipelineError::Stream(e)),
                }
            },
            Stage::Optimize => {
                match optimize(cur) {
                    Ok(h) => Ok(h),
                    Err(e) => Err(PipelineError::Rewrite(e)),
                }
            },
        };
        match outcome {
            Err(e) => {
                proof {
                    assert(stage_apply(stages@[i as int], *cfg, before) == Err::<
                        GraphModel,
                        PipelineErrorModel,
                    >(e@));
                }
                return Err(PipelineFailure { stage, error: e, snapshot: backup });
            },
            Ok(h) => {
                proof {
                    assert(stage_apply(stages@[i as int], *cfg, before) == Ok::<
                        GraphModel,
                        PipelineErrorModel,
                    >(h@));
                    if kernel_free(g0) && cfg.stop_at != Stage::Optimize && stage_list(
                        *cfg,
                    ).contains(cfg.stop_at) {
                        assert(kernel_free(before));
                        match stage {
                            Stage::Load | Stage::Type | Stage::PulseToType => {
                                assert(h@ == before);
                            },
                            Stage::ConcretizeStreamDim => {
                                assert forall|n: int|
                                    0 <= n < h@.nodes.len() implies !((
                                #[trigger] h@.nodes[n].op) matches crate::graph::OpModel::LinearKernel {
                                    ..
                                }) by {
                                    assert(h@.nodes[n].op == before.nodes[n].op);
                                }
                            },
                            Stage::Pulse => {
                                assert forall|n: int|
                                    0 <= n < h@.nodes.len() implies !((
                                #[trigger] h@.nodes[n].op) matches crate::graph::OpModel::LinearKernel {
                                    ..
                                }) by {
                                    assert(h@.nodes[n].op == crate::stream::pulse_op(
                                        before.nodes[n].op,
                                    ));
                                }
                            },
                            Stage::Optimize => {
                                // unreachable under the hypothesis: the stop
                                // stage stands strictly before the optimizer
                                let stop = cfg.stop_at;
                                let k = choose|k: int|
                                    0 <= k < stage_list(*cfg).len() && stage_list(*cfg)[k] == stop;
                                assert(stages@[k] == stop);
                                assert(stages@[i as int] == Stage::Optimize);
                                assert(k != i as int);
                                if k > i as int {
                                    // every stage after the optimizer would be
                                    // outside the table: the optimizer is last
                                    assert(stages@ == stage_list(*cfg));
                                    assert(stages@[stages@.len() - 1] == Stage::Optimize);
                                    assert forall|k2: int|
                                        0 <= k2 < stages@.len() - 1 implies stages@[k2]
                                        != Stage::Optimize by {}
                                    assert(i as int == stages@.len() - 1);
                                    assert(false);
                                } else {
                                    assert(false);
                                }
                            },
                            _ => {
                                // analysis, incorporation and the declutter
                                // passes asserted preservation at their call
                            },
                        }
                        assert(kernel_free(h@));
                    }
                }
                cur = h;
                if stage_eq(stage, cfg.stop_at) {
                    proof {
                        assert(run_stages(before, *cfg, stages@, i as int) == Ok::<
                            GraphModel,
                            (Stage, GraphModel, PipelineErrorModel),
                        >(cur@));
                    }
                    return Ok(PipelineRun { graph: cur, snapshots });
                }
                i += 1;
            },
        }
    }
    proof {
        assert(run_stages(cur@, *cfg, stages@, stages@.len() as int) == Ok::<
            GraphModel,
            (Stage, GraphModel, PipelineErrorModel),
        >(cur@));
    }
    Ok(PipelineRun { graph: cur, snapshots })
}

/// Stage equality.
fn stage_eq(a: Stage, b: Stage) -> (r: bool)
    ensures
        r == (a == b),
{
    a == b
}

} // verus!
