//! Semantics of the operation library: how each operation types its edges
//! (the bidirectional inference rule the analyser drives to a fixed point)
//! and how the element-wise operations fold constants.

use vstd::prelude::*;
use vstd::wrapping::i64_specs;

use crate::fact::{
    clone_dims, conflict_of, fixed_dims, join_of, Fact, FactModel, Tensor, TensorModel,
    TypeConflict,
};
use crate::graph::{Op, OpModel};

verus! {

/// Why a node could not be analysed.
#[derive(Clone, Copy, PartialEq, Eq, Structural, Debug)]
pub enum AnalysisErrorKind {
    /// Two facts meeting at the node disagree on a concrete field.
    Conflict(TypeConflict),
    /// The node has the wrong number of inputs or outputs for its operation.
    Arity,
}

/// An analysis failure, attributed to the node it arose at.
#[derive(Clone, Copy, PartialEq, Eq, Structural, Debug)]
pub struct AnalysisError {
    pub node: usize,
    pub kind: AnalysisErrorKind,
}

/// The operation applied to one element, for the element-wise operations.
/// Arithmetic wraps; the compiler core only moves these values around.
pub open spec fn apply_elem(op: OpModel, x: i64) -> i64 {
    match op {
        OpModel::AddConst(c) => i64_specs::wrapping_add(x, c),
        OpModel::MulConst(c) => i64_specs::wrapping_mul(x, c),
        OpModel::Affine { mul, add } => i64_specs::wrapping_add(
            i64_specs::wrapping_mul(x, mul),
            add,
        ),
        OpModel::LinearKernel { mul, add } => i64_specs::wrapping_add(
            i64_specs::wrapping_mul(x, mul),
            add,
        ),
        _ => x,
    }
}

/// The operation is element-wise: one input, one output, same shape, value
/// computable point by point.
pub open spec fn elementwise(op: OpModel) -> bool {
    match op {
        OpModel::Identity => true,
        OpModel::AddConst(_) => true,
        OpModel::MulConst(_) => true,
        OpModel::Affine { .. } => true,
        OpModel::LinearKernel { .. } => true,
        _ => false,
    }
}

/// The tensor an element-wise operation produces from `t`.
pub open spec fn mapped_tensor(op: OpModel, t: TensorModel) -> TensorModel {
    TensorModel { dt: t.dt, shape: t.shape, data: t.data.map_values(|x: i64| apply_elem(op, x)) }
}

/// Runtime form of `mapped_tensor`.
pub fn map_tensor(op: &Op, t: &Tensor) -> (r: Tensor)
    ensures
        r@ == mapped_tensor(op@, t@),
{
    let mut data: Vec<i64> = Vec::new();
    let mut i: usize = 0;
    while i < t.data.len()
        invariant
            i <= t.data.len(),
            data.len() == i,
            forall|j: int| 0 <= j < i ==> data@[j] == apply_elem(op@, t.data@[j]),
        decreases t.data.len() - i,
    {
        let x = t.data[i];
        let y = match op {
            Op::AddConst(c) => x.wrapping_add(*c),
            Op::MulConst(c) => x.wrapping_mul(*c),
            Op::Affine { mul, add } => x.wrapping_mul(*mul).wrapping_add(*add),
            Op::LinearKernel { mul, add } => x.wrapping_mul(*mul).wrapping_add(*add),
            _ => x,
        };
        data.push(y);
        i += 1;
    }
    let r = Tensor { dt: t.dt, shape: crate::fact::clone_usizes(&t.shape), data };
    proof {
        assert(r@.data =~= t@.data.map_values(|x: i64| apply_elem(op@, x)));
        assert(r@ =~= mapped_tensor(op@, t@));
    }
    r
}

/// The fully determined fact a constant tensor induces.
pub open spec fn full_fact(t: TensorModel) -> FactModel {
    FactModel { dt: Some(t.dt), shape: Some(fixed_dims(t.shape)), value: Some(t) }
}

/// The fact with the value forgotten: the type-and-shape part that
/// element-wise operations share between their input and output.
pub open spec fn strip_value(f: FactModel) -> FactModel {
    FactModel { dt: f.dt, shape: f.shape, value: None }
}

/// What one inference step at a node computes: refined facts for the node's
/// input edges and output edges, or the failure. This is the whole
/// per-operation typing discipline.
pub open spec fn infer_spec(
    op: OpModel,
    ins: Seq<FactModel>,
    outs: Seq<FactModel>,
) -> Result<(Seq<FactModel>, Seq<FactModel>), AnalysisErrorKind> {
    match op {
        OpModel::Source => {
            if ins.len() == 0 && outs.len() == 1 {
                Ok((ins, outs))
            } else {
                Err(AnalysisErrorKind::Arity)
            }
        },
        OpModel::Const(t) => {
            if !(ins.len() == 0 && outs.len() == 1) {
                Err(AnalysisErrorKind::Arity)
            } else if conflict_of(outs[0], full_fact(t)) is Some {
                Err(AnalysisErrorKind::Conflict(conflict_of(outs[0], full_fact(t))->Some_0))
            } else {
                Ok((ins, seq![join_of(outs[0], full_fact(t))]))
            }
        },
        OpModel::Identity => {
            if !(ins.len() == 1 && outs.len() == 1) {
                Err(AnalysisErrorKind::Arity)
            } else if conflict_of(ins[0], outs[0]) is Some {
                Err(AnalysisErrorKind::Conflict(conflict_of(ins[0], outs[0])->Some_0))
            } else {
                Ok((seq![join_of(ins[0], outs[0])], seq![join_of(ins[0], outs[0])]))
            }
        },
        OpModel::AddConst(_) | OpModel::MulConst(_) | OpModel::Affine { .. }
            | OpModel::LinearKernel { .. } => infer_pointwise(op, ins, outs),
        OpModel::SlidingSum { .. } | OpModel::PulsedSlidingSum { .. } => infer_windowed(
            op,
            ins,
            outs,
        ),
        OpModel::Removed => Err(AnalysisErrorKind::Arity),
    }
}

/// The rule shared by the element-wise arithmetic operations: type and shape
/// are common to both edges, and a known input value determines the output
/// value.
pub open spec fn infer_pointwise(
    op: OpModel,
    ins: Seq<FactModel>,
    outs: Seq<FactModel>,
) -> Result<(Seq<FactModel>, Seq<FactModel>), AnalysisErrorKind> {
    if !(ins.len() == 1 && outs.len() == 1) {
        Err(AnalysisErrorKind::Arity)
    } else if conflict_of(strip_value(ins[0]), strip_value(outs[0])) is Some {
        Err(
            AnalysisErrorKind::Conflict(
                conflict_of(strip_value(ins[0]), strip_value(outs[0]))->Some_0,
            ),
        )
    } else {
        let base = join_of(strip_value(ins[0]), strip_value(outs[0]));
        let computed = match ins[0].value {
            Some(t) => Some(mapped_tensor(op, t)),
            None => None,
        };
        match (computed, outs[0].value) {
            (Some(a), Some(b)) => {
                if a == b {
                    Ok(
                        (
                            seq![FactModel { value: ins[0].value, ..base }],
                            seq![FactModel { value: Some(a), ..base }],
                        ),
                    )
                } else {
                    Err(AnalysisErrorKind::Conflict(TypeConflict::Value))
                }
            },
            (Some(a), None) => Ok(
                (
                    seq![FactModel { value: ins[0].value, ..base }],
                    seq![FactModel { value: Some(a), ..base }],
                ),
            ),
            (None, v) => Ok(
                (
                    seq![FactModel { value: ins[0].value, ..base }],
                    seq![FactModel { value: v, ..base }],
                ),
            ),
        }
    }
}

/// The rule for the windowed operations: type and shape are common to both
/// edges (a window of the streaming axis keeps its length), the shape must
/// be rank one, and values are not folded.
pub open spec fn infer_windowed(
    op: OpModel,
    ins: Seq<FactModel>,
    outs: Seq<FactModel>,
) -> Result<(Seq<FactModel>, Seq<FactModel>), AnalysisErrorKind> {
    if !(ins.len() == 1 && outs.len() == 1) {
        Err(AnalysisErrorKind::Arity)
    } else if conflict_of(strip_value(ins[0]), strip_value(outs[0])) is Some {
        Err(
            AnalysisErrorKind::Conflict(
                conflict_of(strip_value(ins[0]), strip_value(outs[0]))->Some_0,
            ),
        )
    } else {
        let base = join_of(strip_value(ins[0]), strip_value(outs[0]));
        if base.shape matches Some(s) && s.len() != 1 {
            Err(AnalysisErrorKind::Conflict(TypeConflict::Shape))
        } else {
            Ok(
                (
                    seq![FactModel { value: ins[0].value, ..base }],
                    seq![FactModel { value: outs[0].value, ..base }],
                ),
            )
        }
    }
}

/// One inference step refines what it is given: every fact it returns is at
/// least as specific as the fact it replaces, and stays well formed.
pub proof fn lemma_infer_refines(op: OpModel, ins: Seq<FactModel>, outs: Seq<FactModel>)
    requires
        forall|i: int| 0 <= i < ins.len() ==> (#[trigger] ins[i]).wf(),
        forall|i: int| 0 <= i < outs.len() ==> (#[trigger] outs[i]).wf(),
        op matches OpModel::Const(t) ==> t.wf(),
    ensures
        infer_spec(op, ins, outs) matches Ok((i2, o2)) ==> {
            &&& i2.len() == ins.len()
            &&& o2.len() == outs.len()
            &&& forall|i: int|
                0 <= i < ins.len() ==> (#[trigger] i2[i]).refines(ins[i]) && i2[i].wf()
            &&& forall|i: int|
                0 <= i < outs.len() ==> (#[trigger] o2[i]).refines(outs[i]) && o2[i].wf()
        },
{
    match op {
        OpModel::Const(t) => {
            if infer_spec(op, ins, outs) is Ok {
                crate::fact::lemma_join_refines(outs[0], full_fact(t));
            }
        },
        OpModel::Identity => {
            if infer_spec(op, ins, outs) is Ok {
                crate::fact::lemma_join_refines(ins[0], outs[0]);
            }
        },
        OpModel::AddConst(_) | OpModel::MulConst(_) | OpModel::Affine { .. }
            | OpModel::LinearKernel { .. } => {
            lemma_infer_pointwise_refines(op, ins, outs);
        },
        OpModel::SlidingSum { .. } | OpModel::PulsedSlidingSum { .. } => {
            lemma_infer_windowed_refines(op, ins, outs);
        },
        _ => {},
    }
}

proof fn lemma_infer_pointwise_refines(op: OpModel, ins: Seq<FactModel>, outs: Seq<FactModel>)
    requires
        forall|i: int| 0 <= i < ins.len() ==> (#[trigger] ins[i]).wf(),
        forall|i: int| 0 <= i < outs.len() ==> (#[trigger] outs[i]).wf(),
    ensures
        infer_pointwise(op, ins, outs) matches Ok((i2, o2)) ==> {
            &&& i2.len() == ins.len()
            &&& o2.len() == outs.len()
            &&& forall|i: int|
                0 <= i < ins.len() ==> (#[trigger] i2[i]).refines(ins[i]) && i2[i].wf()
            &&& forall|i: int|
                0 <= i < outs.len() ==> (#[trigger] o2[i]).refines(outs[i]) && o2[i].wf()
        },
{
    if infer_pointwise(op, ins, outs) is Ok {
        let a = strip_value(ins[0]);
        let b = strip_value(outs[0]);
        assert(a.wf() && b.wf());
        crate::fact::lemma_join_refines(a, b);
        let base = join_of(a, b);
        let r = infer_pointwise(op, ins, outs)->Ok_0;
        assert(r.0[0].refines(ins[0]) && r.0[0].wf()) by {
            if ins[0].value is Some {
                let t = ins[0].value->Some_0;
                assert(ins[0].dt == Some(t.dt));
                assert(base.dt == Some(t.dt));
                assert(base.shape == Some(fixed_dims(t.shape)));
            }
        }
        assert(r.1[0].refines(outs[0]) && r.1[0].wf()) by {
            if ins[0].value is Some {
                let t = ins[0].value->Some_0;
                let m = mapped_tensor(op, t);
                assert(m.data.len() == t.data.len());
                assert(ins[0].dt == Some(t.dt));
                assert(base.dt == Some(m.dt));
                assert(base.shape == Some(fixed_dims(m.shape)));
                if outs[0].value is Some {
                    assert(r.1[0].value == outs[0].value);
                }
            } else {
                if outs[0].value is Some {
                    let t = outs[0].value->Some_0;
                    assert(outs[0].dt == Some(t.dt));
                    assert(base.dt == Some(t.dt));
                    assert(base.shape == Some(fixed_dims(t.shape)));
                }
            }
        }
    }
}

proof fn lemma_infer_windowed_refines(op: OpModel, ins: Seq<FactModel>, outs: Seq<FactModel>)
    requires
        forall|i: int| 0 <= i < ins.len() ==> (#[trigger] ins[i]).wf(),
        forall|i: int| 0 <= i < outs.len() ==> (#[trigger] outs[i]).wf(),
    ensures
        infer_windowed(op, ins, outs) matches Ok((i2, o2)) ==> {
            &&& i2.len() == ins.len()
            &&& o2.len() == outs.len()
            &&& forall|i: int|
                0 <= i < ins.len() ==> (#[trigger] i2[i]).refines(ins[i]) && i2[i].wf()
            &&& forall|i: int|
                0 <= i < outs.len() ==> (#[trigger] o2[i]).refines(outs[i]) && o2[i].wf()
        },
{
    if infer_windowed(op, ins, outs) is Ok {
        let a = strip_value(ins[0]);
        let b = strip_value(outs[0]);
        crate::fact::lemma_join_refines(a, b);
        let base = join_of(a, b);
        assert(infer_windowed(op, ins, outs)->Ok_0.0[0].wf()) by {
            if ins[0].value is Some {
                let t = ins[0].value->Some_0;
                assert(ins[0].dt == Some(t.dt));
            }
        }
        assert(infer_windowed(op, ins, outs)->Ok_0.1[0].wf()) by {
            if outs[0].value is Some {
                let t = outs[0].value->Some_0;
                assert(outs[0].dt == Some(t.dt));
            }
        }
    }
}

/// Runtime form of one inference step.
pub fn infer(op: &Op, ins: &Vec<Fact>, outs: &Vec<Fact>) -> (r: Result<
    (Vec<Fact>, Vec<Fact>),
    AnalysisErrorKind,
>)
    ensures
        match r {
            Ok((i2, o2)) => infer_spec(
                op@,
                ins@.map_values(|f: Fact| f@),
                outs@.map_values(|f: Fact| f@),
            ) == Ok::<_, AnalysisErrorKind>(
                (i2@.map_values(|f: Fact| f@), o2@.map_values(|f: Fact| f@)),
            ),
            Err(e) => infer_spec(
                op@,
                ins@.map_values(|f: Fact| f@),
                outs@.map_values(|f: Fact| f@),
            ) == Err::<(Seq<FactModel>, Seq<FactModel>), _>(e),
        },
{
    let ghost ins_m = ins@.map_values(|f: Fact| f@);
    let ghost outs_m = outs@.map_values(|f: Fact| f@);
    match op {
        Op::Source => {
            if ins.len() == 0 && outs.len() == 1 {
                let r = (duplicate_facts(ins), duplicate_facts(outs));
                proof {
                    assert(r.0@.map_values(|f: Fact| f@) =~= ins_m);
                    assert(r.1@.map_values(|f: Fact| f@) =~= outs_m);
                }
                Ok(r)
            } else {
                Err(AnalysisErrorKind::Arity)
            }
        },
        Op::Const(t) => {
            if !(ins.len() == 0 && outs.len() == 1) {
                return Err(AnalysisErrorKind::Arity);
            }
            let cf = Fact {
                dt: Some(t.dt),
                shape: Some(dims_of_shape(&t.shape)),
                value: Some(t.duplicate()),
            };
            proof {
                assert(cf@ =~= full_fact(t@));
                assert(outs_m[0] == outs@[0]@);
            }
            match outs[0].unify(&cf) {
                Ok(f) => {
                    let r = (duplicate_facts(ins), single_fact(f));
                    proof {
                        assert(r.0@.map_values(|f2: Fact| f2@) =~= ins_m);
                        assert(r.1@.map_values(|f2: Fact| f2@) =~= seq![
                            join_of(outs_m[0], full_fact(t@)),
                        ]);
                    }
                    Ok(r)
                },
                Err(c) => Err(AnalysisErrorKind::Conflict(c)),
            }
        },
        Op::Identity => {
            if !(ins.len() == 1 && outs.len() == 1) {
                return Err(AnalysisErrorKind::Arity);
            }
            proof {
                assert(ins_m[0] == ins@[0]@);
                assert(outs_m[0] == outs@[0]@);
            }
            match ins[0].unify(&outs[0]) {
                Ok(f) => {
                    let f2 = f.duplicate();
                    let r = (single_fact(f), single_fact(f2));
                    proof {
                        assert(r.0@.map_values(|x: Fact| x@) =~= seq![join_of(ins_m[0], outs_m[0])]);
                        assert(r.1@.map_values(|x: Fact| x@) =~= seq![join_of(ins_m[0], outs_m[0])]);
                    }
                    Ok(r)
                },
                Err(c) => Err(AnalysisErrorKind::Conflict(c)),
            }
        },
        Op::AddConst(_) | Op::MulConst(_) | Op::Affine { .. } | Op::LinearKernel { .. } => {
            infer_pointwise_exec(op, ins, outs)
        },
        Op::SlidingSum { .. } | Op::PulsedSlidingSum { .. } => infer_windowed_exec(op, ins, outs),
        Op::Removed => Err(AnalysisErrorKind::Arity),
    }
}

/// A one-element fact vector.
fn single_fact(f: Fact) -> (r: Vec<Fact>)
    ensures
        r@.len() == 1,
        r@[0] == f,
{
    let mut r: Vec<Fact> = Vec::new();
    r.push(f);
    r
}

/// A deep copy of a fact vector.
fn duplicate_facts(v: &Vec<Fact>) -> (r: Vec<Fact>)
    ensures
        r@.map_values(|f: Fact| f@) == v@.map_values(|f: Fact| f@),
{
    let mut r: Vec<Fact> = Vec::new();
    let mut i: usize = 0;
    while i < v.len()
        invariant
            i <= v.len(),
            r.len() == i,
            forall|j: int| 0 <= j < i ==> r@[j]@ == v@[j]@,
        decreases v.len() - i,
    {
        r.push(v[i].duplicate());
        i += 1;
    }
    proof {
        assert(r@.map_values(|f: Fact| f@) =~= v@.map_values(|f: Fact| f@));
    }
    r
}

/// The dimensions of a concrete shape.
fn dims_of_shape(shape: &Vec<usize>) -> (r: Vec<crate::fact::Dim>)
    ensures
        r@ == fixed_dims(shape@),
{
    let mut r: Vec<crate::fact::Dim> = Vec::new();
    let mut i: usize = 0;
    while i < shape.len()
        invariant
            i <= shape.len(),
            r.len() == i,
            forall|j: int| 0 <= j < i ==> r@[j] == crate::fact::Dim::Fixed(shape@[j]),
        decreases shape.len() - i,
    {
        r.push(crate::fact::Dim::Fixed(shape[i]));
        i += 1;
    }
    proof {
        assert(r@ =~= fixed_dims(shape@));
    }
    r
}

/// The fact with its value dropped.
fn strip_value_exec(f: &Fact) -> (r: Fact)
    ensures
        r@ == strip_value(f@),
{
    let r = Fact {
        dt: f.dt,
        shape: match &f.shape {
            Some(s) => Some(clone_dims(s)),
            None => None,
        },
        value: None,
    };
    proof {
        assert(r@ =~= strip_value(f@));
    }
    r
}

fn infer_pointwise_exec(op: &Op, ins: &Vec<Fact>, outs: &Vec<Fact>) -> (r: Result<
    (Vec<Fact>, Vec<Fact>),
    AnalysisErrorKind,
>)
    requires
        elementwise(op@),
        !(op@ is Identity),
    ensures
        match r {
            Ok((i2, o2)) => infer_pointwise(
                op@,
                ins@.map_values(|f: Fact| f@),
                outs@.map_values(|f: Fact| f@),
            ) == Ok::<_, AnalysisErrorKind>(
                (i2@.map_values(|f: Fact| f@), o2@.map_values(|f: Fact| f@)),
            ) && infer_spec(
                op@,
                ins@.map_values(|f: Fact| f@),
                outs@.map_values(|f: Fact| f@),
            ) == infer_pointwise(
                op@,
                ins@.map_values(|f: Fact| f@),
                outs@.map_values(|f: Fact| f@),
            ),
            Err(e) => infer_pointwise(
                op@,
                ins@.map_values(|f: Fact| f@),
                outs@.map_values(|f: Fact| f@),
            ) == Err::<(Seq<FactModel>, Seq<FactModel>), _>(e) && infer_spec(
                op@,
                ins@.map_values(|f: Fact| f@),
                outs@.map_values(|f: Fact| f@),
            ) == infer_pointwise(
                op@,
                ins@.map_values(|f: Fact| f@),
                outs@.map_values(|f: Fact| f@),
            ),
        },
{
    let ghost ins_m = ins@.map_values(|f: Fact| f@);
    let ghost outs_m = outs@.map_values(|f: Fact| f@);
    if !(ins.len() == 1 && outs.len() == 1) {
        return Err(AnalysisErrorKind::Arity);
    }
    proof {
        assert(ins_m[0] == ins@[0]@);
        assert(outs_m[0] == outs@[0]@);
    }
    let sa = strip_value_exec(&ins[0]);
    let sb = strip_value_exec(&outs[0]);
    match sa.unify(&sb) {
        Err(c) => Err(AnalysisErrorKind::Conflict(c)),
        Ok(base) => {
            let computed: Option<Tensor> = match &ins[0].value {
                Some(t) => Some(map_tensor(op, t)),
                None => None,
            };
            let in_fact = Fact {
                dt: base.dt,
                shape: match &base.shape {
                    Some(s) => Some(clone_dims(s)),
                    None => None,
                },
                value: match &ins[0].value {
                    Some(t) => Some(t.duplicate()),
                    None => None,
                },
            };
            let ghost base_m = join_of(strip_value(ins_m[0]), strip_value(outs_m[0]));
            proof {
                assert(in_fact@ =~= (FactModel { value: ins_m[0].value, ..base_m }));
            }
            match (computed, &outs[0].value) {
                (Some(a), Some(b)) => {
                    if a.same(b) {
                        let out_fact = Fact {
                            dt: base.dt,
                            shape: match &base.shape {
                                Some(s) => Some(clone_dims(s)),
                                None => None,
                            },
                            value: Some(a),
                        };
                        proof {
                            assert(out_fact@ =~= (FactModel {
                                value: Some(mapped_tensor(op@, ins_m[0].value->Some_0)),
                                ..base_m
                            }));
                        }
                        let r = (single_fact(in_fact), single_fact(out_fact));
                        proof {
                            assert(r.0@.map_values(|x: Fact| x@) =~= seq![
                                FactModel { value: ins_m[0].value, ..base_m },
                            ]);
                            assert(r.1@.map_values(|x: Fact| x@) =~= seq![
                                FactModel {
                                    value: Some(mapped_tensor(op@, ins_m[0].value->Some_0)),
                                    ..base_m
                                },
                            ]);
                        }
                        Ok(r)
                    } else {
                        Err(AnalysisErrorKind::Conflict(TypeConflict::Value))
                    }
                },
                (Some(a), None) => {
                    let out_fact = Fact {
                        dt: base.dt,
                        shape: match &base.shape {
                            Some(s) => Some(clone_dims(s)),
                            None => None,
                        },
                        value: Some(a),
                    };
                    proof {
                        assert(out_fact@ =~= (FactModel {
                            value: Some(mapped_tensor(op@, ins_m[0].value->Some_0)),
                            ..base_m
                        }));
                    }
                    let r = (single_fact(in_fact), single_fact(out_fact));
                    proof {
                        assert(r.0@.map_values(|x: Fact| x@) =~= seq![
                            FactModel { value: ins_m[0].value, ..base_m },
                        ]);
                        assert(r.1@.map_values(|x: Fact| x@) =~= seq![
                            FactModel {
                                value: Some(mapped_tensor(op@, ins_m[0].value->Some_0)),
                                ..base_m
                            },
                        ]);
                    }
                    Ok(r)
                },
                (None, _) => {
                    let out_fact = Fact {
                        dt: base.dt,
                        shape: match &base.shape {
                            Some(s) => Some(clone_dims(s)),
                            None => None,
                        },
                        value: match &outs[0].value {
                            Some(t) => Some(t.duplicate()),
                            None => None,
                        },
                    };
                    proof {
                        assert(out_fact@ =~= (FactModel { value: outs_m[0].value, ..base_m }));
                    }
                    let r = (single_fact(in_fact), single_fact(out_fact));
                    proof {
                        assert(r.0@.map_values(|x: Fact| x@) =~= seq![
                            FactModel { value: ins_m[0].value, ..base_m },
                        ]);
                        assert(r.1@.map_values(|x: Fact| x@) =~= seq![
                            FactModel { value: outs_m[0].value, ..base_m },
                        ]);
                    }
                    Ok(r)
                },
            }
        },
    }
}

fn infer_windowed_exec(op: &Op, ins: &Vec<Fact>, outs: &Vec<Fact>) -> (r: Result<
    (Vec<Fact>, Vec<Fact>),
    AnalysisErrorKind,
>)
    requires
        op@ matches OpModel::SlidingSum { .. } || op@ matches OpModel::PulsedSlidingSum { .. },
    ensures
        match r {
            Ok((i2, o2)) => infer_spec(
                op@,
                ins@.map_values(|f: Fact| f@),
                outs@.map_values(|f: Fact| f@),
            ) == Ok::<_, AnalysisErrorKind>(
                (i2@.map_values(|f: Fact| f@), o2@.map_values(|f: Fact| f@)),
            ),
            Err(e) => infer_spec(
                op@,
                ins@.map_values(|f: Fact| f@),
                outs@.map_values(|f: Fact| f@),
            ) == Err::<(Seq<FactModel>, Seq<FactModel>), _>(e),
        },
{
    let ghost ins_m = ins@.map_values(|f: Fact| f@);
    let ghost outs_m = outs@.map_values(|f: Fact| f@);
    if !(ins.len() == 1 && outs.len() == 1) {
        return Err(AnalysisErrorKind::Arity);
    }
    proof {
        assert(ins_m[0] == ins@[0]@);
        assert(outs_m[0] == outs@[0]@);
    }
    let sa = strip_value_exec(&ins[0]);
    let sb = strip_value_exec(&outs[0]);
    match sa.unify(&sb) {
        Err(c) => Err(AnalysisErrorKind::Conflict(c)),
        Ok(base) => {
            let rank_bad = match &base.shape {
                Some(s) => s.len() != 1,
                None => false,
            };
            if rank_bad {
                return Err(AnalysisErrorKind::Conflict(TypeConflict::Shape));
            }
            let ghost base_m = join_of(strip_value(ins_m[0]), strip_value(outs_m[0]));
            let in_fact = Fact {
                dt: base.dt,
                shape: match &base.shape {
                    Some(s) => Some(clone_dims(s)),
                    None => None,
                },
                value: match &ins[0].value {
                    Some(t) => Some(t.duplicate()),
                    None => None,
                },
            };
            let out_fact = Fact {
                dt: base.dt,
                shape: match &base.shape {
                    Some(s) => Some(clone_dims(s)),
                    None => None,
                },
                value: match &outs[0].value {
                    Some(t) => Some(t.duplicate()),
                    None => None,
                },
            };
            proof {
                assert(in_fact@ =~= (FactModel { value: ins_m[0].value, ..base_m }));
                assert(out_fact@ =~= (FactModel { value: outs_m[0].value, ..base_m }));
            }
            let r = (single_fact(in_fact), single_fact(out_fact));
            proof {
                assert(r.0@.map_values(|x: Fact| x@) =~= seq![
                    FactModel { value: ins_m[0].value, ..base_m },
                ]);
                assert(r.1@.map_values(|x: Fact| x@) =~= seq![
                    FactModel { value: outs_m[0].value, ..base_m },
                ]);
            }
            Ok(r)
        },
    }
}


/// A successful inference step names exactly one output edge and at most one
/// input edge, and keeps the given arity.
pub proof fn lemma_infer_ok_arity(op: OpModel, ins: Seq<FactModel>, outs: Seq<FactModel>)
    ensures
        infer_spec(op, ins, outs) matches Ok((i2, o2)) ==> {
            &&& i2.len() == ins.len()
            &&& o2.len() == outs.len()
            &&& outs.len() == 1
            &&& ins.len() <= 1
        },
{
}


/// The fixed dimensions of a concrete tensor's shape.
pub fn dims_of_tensor(t: &Tensor) -> (r: Vec<crate::fact::Dim>)
    ensures
        r@ == fixed_dims(t@.shape),
{
    dims_of_shape(&t.shape)
}

} // verus!
