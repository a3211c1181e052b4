//! The reference semantics of the operation library: evaluating a graph on
//! concrete tensors, whole-stream or pulse by pulse.
//!
//! This is not an optimized kernel library; it is the mathematical meaning
//! the pipeline must preserve, small enough to state exactly. The windowed
//! sum reads zeroes before the start of the stream, so a pulsed run carries
//! the last `window - 1` elements across pulse boundaries and reproduces the
//! whole-stream output window by window: the pulse-equivalence law below.

use vstd::prelude::*;
use vstd::wrapping::i64_specs;

use crate::graph::{Graph, GraphModel, Op, OpModel, Outlet};
use crate::fact::{Tensor, TensorModel};
use crate::ops::{apply_elem, mapped_tensor};
use crate::topo::{nat_ranks, toposort};

verus! {

/// Why a graph could not be evaluated.
#[derive(Clone, Copy, PartialEq, Eq, Structural, Debug)]
pub enum EvalError {
    /// The graph has a cycle (impossible for a well-formed graph).
    Cycle,
    /// Wrong number of input tensors, or a source that is not designated.
    BadInputs { node: usize },
    /// A node's inputs do not fit its operation (arity or rank).
    BadOperand { node: usize },
    /// The operation has no whole-stream semantics (it is pulsed) or no
    /// semantics at all (a tombstone read by a port).
    Unsupported { node: usize },
}

/// The element at `i`, reading zero outside the stream.
pub open spec fn elem_or_zero(s: Seq<i64>, i: int) -> i64 {
    if 0 <= i < s.len() {
        s[i]
    } else {
        0
    }
}

/// The wrapping sum of the `w` elements ending at position `t` (elements
/// before the start of the stream read as zero).
pub open spec fn window_sum(s: Seq<i64>, t: int, w: nat) -> i64
    decreases w,
{
    if w == 0 {
        0
    } else {
        i64_specs::wrapping_add(window_sum(s, t - 1, (w - 1) as nat), elem_or_zero(s, t))
    }
}

/// The stream of windowed sums: same length as the input.
pub open spec fn sliding_seq(s: Seq<i64>, w: nat) -> Seq<i64> {
    Seq::new(s.len(), |t: int| window_sum(s, t, w))
}

/// A window sum only reads the `w` positions ending at `t`: streams that
/// agree there have the same sum.
proof fn lemma_window_sum_local(a: Seq<i64>, b: Seq<i64>, ta: int, tb: int, w: nat)
    requires
        forall|j: int| 0 <= j < w ==> #[trigger] elem_or_zero(a, ta - j) == elem_or_zero(b, tb - j),
    ensures
        window_sum(a, ta, w) == window_sum(b, tb, w),
    decreases w,
{
    if w > 0 {
        assert forall|j: int|
            0 <= j < w - 1 implies #[trigger] elem_or_zero(a, ta - 1 - j) == elem_or_zero(
            b,
            tb - 1 - j,
        ) by {
            assert(elem_or_zero(a, ta - (j + 1)) == elem_or_zero(b, tb - (j + 1)));
        }
        lemma_window_sum_local(a, b, ta - 1, tb - 1, (w - 1) as nat);
        assert(elem_or_zero(a, ta - 0) == elem_or_zero(b, tb - 0));
    }
}

/// The carried state of a pulsed windowed sum: the last `w - 1` stream
/// elements, zero-padded at the front before the stream has produced that
/// many.
pub open spec fn history_of(consumed: Seq<i64>, w: nat) -> Seq<i64> {
    Seq::new((w - 1) as nat, |i: int| elem_or_zero(consumed, consumed.len() - (w - 1) + i))
}

/// One pulse of the pulsed windowed sum: the outputs for the new chunk, read
/// against the carried history.
pub open spec fn pulse_out(history: Seq<i64>, chunk: Seq<i64>, w: nat) -> Seq<i64> {
    Seq::new(chunk.len(), |t: int| window_sum(history + chunk, history.len() + t, w))
}

/// Feeding the pulsed operation one more chunk extends the whole-stream
/// output by exactly that chunk's windows, and the history stays in step.
pub proof fn lemma_pulse_step(consumed: Seq<i64>, chunk: Seq<i64>, w: nat)
    requires
        w >= 1,
    ensures
        pulse_out(history_of(consumed, w), chunk, w) =~= sliding_seq(consumed + chunk, w).skip(
            consumed.len() as int,
        ),
        history_of(consumed + chunk, w) =~= (history_of(consumed, w) + chunk).skip(
            chunk.len() as int,
        ),
{
    let h = history_of(consumed, w);
    let full = consumed + chunk;
    assert forall|t: int| 0 <= t < chunk.len() implies pulse_out(h, chunk, w)[t] == sliding_seq(
        full,
        w,
    ).skip(consumed.len() as int)[t] by {
        assert forall|j: int| 0 <= j < w implies #[trigger] elem_or_zero(h + chunk, h.len() + t - j)
            == elem_or_zero(full, consumed.len() + t - j) by {
            let p1 = h.len() + t - j;
            let p2 = consumed.len() + t - j;
            if t - j >= 0 {
                assert(elem_or_zero(h + chunk, p1) == chunk[t - j]);
                assert(elem_or_zero(full, p2) == chunk[t - j]);
            } else {
                if p1 >= 0 {
                    assert((h + chunk)[p1] == h[p1]);
                    assert(h[p1] == elem_or_zero(consumed, consumed.len() - (w - 1) + p1));
                    assert(consumed.len() - (w - 1) + p1 == p2);
                } else {
                    assert(elem_or_zero(h + chunk, p1) == 0);
                    assert(p2 < 0);
                }
            }
        }
        lemma_window_sum_local(h + chunk, full, h.len() + t, consumed.len() + t, w);
    }
    assert forall|i: int| 0 <= i < w - 1 implies history_of(full, w)[i] == (h + chunk).skip(
        chunk.len() as int,
    )[i] by {
        let p = full.len() - (w - 1) + i;
        let q = chunk.len() + i;  // position in h + chunk
        if p >= consumed.len() {
            assert(elem_or_zero(full, p) == chunk[p - consumed.len()]);
            assert((h + chunk)[q] == chunk[p - consumed.len()]);
        } else {
            assert(q < h.len());
            assert((h + chunk)[q] == h[q]);
            assert(h[q] == elem_or_zero(consumed, consumed.len() - (w - 1) + q));
            assert(consumed.len() - (w - 1) + q == p);
            if 0 <= p {
                assert(elem_or_zero(full, p) == consumed[p]);
                assert(elem_or_zero(consumed, p) == consumed[p]);
            }
        }
    }
}

/// The pulsed run over a whole chunk sequence: outputs concatenated in
/// order, the history threaded through.
pub open spec fn run_pulses(consumed: Seq<i64>, chunks: Seq<Seq<i64>>, w: nat) -> Seq<i64>
    decreases chunks.len(),
{
    if chunks.len() == 0 {
        Seq::empty()
    } else {
        pulse_out(history_of(consumed, w), chunks[0], w) + run_pulses(
            consumed + chunks[0],
            chunks.skip(1),
            w,
        )
    }
}

/// The flattening of a chunk sequence.
pub open spec fn concat_chunks(chunks: Seq<Seq<i64>>) -> Seq<i64>
    decreases chunks.len(),
{
    if chunks.len() == 0 {
        Seq::empty()
    } else {
        chunks[0] + concat_chunks(chunks.skip(1))
    }
}

/// Appending to a stream does not change the windows that end inside the
/// original part.
proof fn lemma_sliding_prefix(s1: Seq<i64>, s2: Seq<i64>, t: int, w: nat)
    requires
        0 <= t < s1.len(),
    ensures
        window_sum(s1, t, w) == window_sum(s1 + s2, t, w),
{
    assert forall|j: int| 0 <= j < w implies #[trigger] elem_or_zero(s1, t - j) == elem_or_zero(
        s1 + s2,
        t - j,
    ) by {
        if 0 <= t - j {
            assert((s1 + s2)[t - j] == s1[t - j]);
        }
    }
    lemma_window_sum_local(s1, s1 + s2, t, t, w);
}

/// Pulse equivalence for the windowed primitive, from any point of the
/// stream: running the stateful pulsed operation over the remaining chunks
/// and concatenating the outputs yields exactly the whole-stream windowed
/// sums over those positions.
pub proof fn lemma_pulse_equivalence_from(consumed: Seq<i64>, chunks: Seq<Seq<i64>>, w: nat)
    requires
        w >= 1,
    ensures
        run_pulses(consumed, chunks, w) =~= sliding_seq(consumed + concat_chunks(chunks), w).skip(
            consumed.len() as int,
        ),
    decreases chunks.len(),
{
    if chunks.len() == 0 {
        assert(consumed + concat_chunks(chunks) =~= consumed);
        assert(sliding_seq(consumed, w).skip(consumed.len() as int) =~= Seq::<i64>::empty());
    } else {
        let c0 = chunks[0];
        let rest = chunks.skip(1);
        let full = consumed + concat_chunks(chunks);
        assert(full =~= (consumed + c0) + concat_chunks(rest));
        lemma_pulse_equivalence_from(consumed + c0, rest, w);
        lemma_pulse_step(consumed, c0, w);
        let lhs = run_pulses(consumed, chunks, w);
        let rhs = sliding_seq(full, w).skip(consumed.len() as int);
        assert forall|t: int| 0 <= t < lhs.len() implies lhs[t] == rhs[t] by {
            if t < c0.len() {
                assert(lhs[t] == pulse_out(history_of(consumed, w), c0, w)[t]);
                assert(pulse_out(history_of(consumed, w), c0, w)[t] == sliding_seq(
                    consumed + c0,
                    w,
                ).skip(consumed.len() as int)[t]);
                assert(sliding_seq(consumed + c0, w)[consumed.len() + t] == window_sum(
                    consumed + c0,
                    consumed.len() + t,
                    w,
                ));
                lemma_sliding_prefix(consumed + c0, concat_chunks(rest), consumed.len() + t, w);
                assert(window_sum((consumed + c0) + concat_chunks(rest), consumed.len() + t, w)
                    == window_sum(full, consumed.len() + t, w));
            } else {
                let t2 = t - c0.len();
                assert(lhs[t] == run_pulses(consumed + c0, rest, w)[t2]);
                assert(run_pulses(consumed + c0, rest, w)[t2] == sliding_seq(
                    (consumed + c0) + concat_chunks(rest),
                    w,
                ).skip((consumed + c0).len() as int)[t2]);
                assert(sliding_seq((consumed + c0) + concat_chunks(rest), w) =~= sliding_seq(
                    full,
                    w,
                ));
            }
        }
        assert(lhs.len() == rhs.len()) by {
            assert(run_pulses(consumed + c0, rest, w).len() == concat_chunks(rest).len());
            lemma_run_pulses_len(consumed + c0, rest, w);
            lemma_run_pulses_len(consumed, chunks, w);
        }
    }
}

/// The pulsed run produces one output element per input element.
proof fn lemma_run_pulses_len(consumed: Seq<i64>, chunks: Seq<Seq<i64>>, w: nat)
    ensures
        run_pulses(consumed, chunks, w).len() == concat_chunks(chunks).len(),
    decreases chunks.len(),
{
    if chunks.len() > 0 {
        lemma_run_pulses_len(consumed + chunks[0], chunks.skip(1), w);
    }
}

/// Pulse equivalence for the windowed primitive: slicing the whole stream
/// into pulses, running the stateful pulsed operation on each in turn with a
/// zero-initialized history, and concatenating the outputs reproduces
/// exactly the windowed sums of the whole unsliced stream.
pub proof fn lemma_pulse_equivalence(chunks: Seq<Seq<i64>>, w: nat)
    requires
        w >= 1,
    ensures
        run_pulses(Seq::empty(), chunks, w) == sliding_seq(concat_chunks(chunks), w),
{
    lemma_pulse_equivalence_from(Seq::empty(), chunks, w);
    assert(Seq::<i64>::empty() + concat_chunks(chunks) =~= concat_chunks(chunks));
    assert(sliding_seq(concat_chunks(chunks), w).skip(0) =~= sliding_seq(concat_chunks(chunks), w));
}


/// The models of a tensor vector.
pub open spec fn tensor_models(v: Seq<Tensor>) -> Seq<TensorModel> {
    v.map_values(|t: Tensor| t@)
}

/// The first designated-input position fed by node `n`.
pub open spec fn input_index_from(g: GraphModel, n: int, k: int) -> Option<int>
    decreases g.inputs.len() - k,
{
    if k < 0 || k >= g.inputs.len() {
        None
    } else if g.inputs[k].node == n {
        Some(k)
    } else {
        input_index_from(g, n, k + 1)
    }
}

pub open spec fn input_index(g: GraphModel, n: int) -> Option<int> {
    input_index_from(g, n, 0)
}

/// The tensor node `n` produces, given the tensors `vals` produced by every
/// node and the designated input tensors. This is the whole-stream reference
/// semantics of the operation library.
pub open spec fn node_out(
    g: GraphModel,
    inputs: Seq<TensorModel>,
    vals: Seq<TensorModel>,
    n: int,
) -> Result<TensorModel, EvalError> {
    let op = g.nodes[n].op;
    match op {
        OpModel::Source => {
            match input_index(g, n) {
                Some(k) => Ok(inputs[k]),
                None => Err(EvalError::BadInputs { node: n as usize }),
            }
        },
        OpModel::Const(t) => Ok(t),
        OpModel::Identity | OpModel::AddConst(_) | OpModel::MulConst(_) | OpModel::Affine {
            ..
        } | OpModel::LinearKernel { .. } => {
            if g.nodes[n].inputs.len() == 1 && g.nodes[n].inputs[0].slot == 0 {
                Ok(mapped_tensor(op, vals[g.nodes[n].inputs[0].node as int]))
            } else {
                Err(EvalError::BadOperand { node: n as usize })
            }
        },
        OpModel::SlidingSum { window } => {
            if g.nodes[n].inputs.len() == 1 && g.nodes[n].inputs[0].slot == 0 && window >= 1 && {
                let t = vals[g.nodes[n].inputs[0].node as int];
                t.shape.len() == 1
            } {
                let t = vals[g.nodes[n].inputs[0].node as int];
                Ok(TensorModel { dt: t.dt, shape: t.shape, data: sliding_seq(t.data, window as nat) })
            } else {
                Err(EvalError::BadOperand { node: n as usize })
            }
        },
        _ => Err(EvalError::Unsupported { node: n as usize }),
    }
}

/// A consistent valuation: every live node produces exactly its tensor.
pub open spec fn consistent_vals(
    g: GraphModel,
    inputs: Seq<TensorModel>,
    vals: Seq<TensorModel>,
) -> bool {
    &&& vals.len() == g.nodes.len()
    &&& forall|n: int|
        g.live(n) ==> node_out(g, inputs, vals, n) == Ok::<TensorModel, EvalError>(#[trigger] vals[n])
}

/// The windowed sums of a stream, computed.
pub fn sliding_sums(s: &Vec<i64>, w: usize) -> (r: Vec<i64>)
    ensures
        r@ == sliding_seq(s@, w as nat),
{
    let mut r: Vec<i64> = Vec::new();
    let mut t: usize = 0;
    while t < s.len()
        invariant
            t <= s.len(),
            r.len() == t,
            forall|t2: int| 0 <= t2 < t ==> r@[t2] == window_sum(s@, t2, w as nat),
        decreases s.len() - t,
    {
        let mut acc: i64 = 0;
        let mut j: usize = 0;
        while j < w
            invariant
                j <= w,
                t < s.len(),
                acc == window_sum(s@, t as int - (w as int) + (j as int), j as nat),
            decreases w - j,
        {
            let back = w - 1 - j;  // distance from t back to the element read
            if back <= t {
                let pos = t - back;
                acc = acc.wrapping_add(s[pos]);
                proof {
                    assert(elem_or_zero(s@, t as int - (w as int) + (j as int) + 1) == s@[pos as int]);
                }
            } else {
                proof {
                    assert(t as int - (w as int) + (j as int) + 1 < 0);
                    assert(elem_or_zero(s@, t as int - (w as int) + (j as int) + 1) == 0);
                }
            }
            j += 1;
        }
        r.push(acc);
        t += 1;
    }
    proof {
        assert(r@ =~= sliding_seq(s@, w as nat));
    }
    r
}

/// Evaluate a graph on concrete input tensors: schedule the nodes, compute
/// each from its predecessors, and read the designated outputs. On success
/// the outputs are exactly those of a consistent valuation of the whole
/// graph under the reference semantics.
pub fn eval(g: &Graph, inputs: &Vec<Tensor>) -> (r: Result<Vec<Tensor>, EvalError>)
    requires
        g@.wf(),
        inputs@.len() == g@.inputs.len(),
    ensures
        match r {
            Ok(outs) => exists|vals: Seq<TensorModel>|
                {
                    &&& #[trigger] consistent_vals(
                        g@,
                        tensor_models(inputs@),
                        vals,
                    )
                    &&& outs@.len() == g@.outputs.len()
                    &&& forall|k: int|
                        0 <= k < g@.outputs.len() ==> (#[trigger] outs@[k])@ == vals[g@.outputs[k].node as int]
                },
            Err(_) => true,
        },
{
    let ghost ins_m = tensor_models(inputs@);
    let ranks = match toposort(g) {
        None => {
            return Err(EvalError::Cycle);
        },
        Some(rr) => rr,
    };
    // process nodes in rank order by selection
    let n = g.nodes.len();
    let mut vals: Vec<Tensor> = Vec::new();
    let mut done: Vec<bool> = Vec::new();
    let mut i: usize = 0;
    while i < n
        invariant
            i <= n,
            vals.len() == i,
            done.len() == i,
            forall|j: int| 0 <= j < i ==> !done@[j],
        decreases n - i,
    {
        vals.push(Tensor { dt: crate::fact::DatumType::Int32, shape: Vec::new(), data: Vec::new() });
        done.push(false);
        i += 1;
    }
    let ghost mut dset: Set<int> = Set::empty();
    let mut count: usize = 0;
    while count < n
        invariant
            dset.finite(),
            dset.len() == count,
            forall|j: int| dset.contains(j) ==> 0 <= j < n,
            forall|j: int| 0 <= j < n ==> (done@[j] <==> dset.contains(j)),
            g@.wf(),
            ins_m == tensor_models(inputs@),
            inputs@.len() == g@.inputs.len(),
            n == g.nodes.len(),
            vals.len() == n,
            done.len() == n,
            count <= n,
            g@.respects_ranks(nat_ranks(ranks@)),
            ranks.len() == n,
            forall|j: int|
                0 <= j < n && #[trigger] done@[j] && g@.live(j) ==> node_out(
                    g@,
                    ins_m,
                    tensor_models(vals@),
                    j,
                ) == Ok::<TensorModel, EvalError>(tensor_models(vals@)[j]),
            forall|j: int, k: int|
                0 <= j < n && done@[j] && 0 <= k < g@.nodes[j].inputs.len() ==> done@[(
                #[trigger] g@.nodes[j].inputs[k]).node as int],
            forall|j: int|
                0 <= j < n && !done@[j] ==> forall|j2: int|
                    0 <= j2 < n && done@[j2] && g@.live(j2) ==> !g@.edge(j, j2),
        decreases n - count,
    {
        // pick an unprocessed node all of whose sources are processed, of
        // least rank among the unprocessed
        let mut pick: usize = n;
        let mut j: usize = 0;
        while j < n
            invariant
                j <= n,
                n == g.nodes.len(),
                done.len() == n,
                ranks.len() == n,
                pick == n || (pick < n && !done@[pick as int]),
                pick < n ==> forall|j2: int|
                    0 <= j2 < j && !done@[j2] ==> ranks@[pick as int] <= #[trigger] ranks@[j2],
                pick == n ==> forall|j2: int| 0 <= j2 < j ==> done@[j2],
            decreases n - j,
        {
            if !done[j] && (pick == n || ranks[j] < ranks[pick]) {
                pick = j;
            }
            j += 1;
        }
        if pick == n {
            proof {
                // unreachable: fewer than `n` nodes are processed, so some
                // node is unprocessed and the scan would have picked one
                vstd::set_lib::lemma_int_range(0, n as int);
                if !vstd::set_lib::set_int_range(0, n as int).subset_of(dset) {
                    let j2 = choose|j2: int|
                        vstd::set_lib::set_int_range(0, n as int).contains(j2) && !dset.contains(
                            j2,
                        );
                    assert(!done@[j2]);
                    assert(false);
                } else {
                    vstd::set_lib::lemma_len_subset(
                        vstd::set_lib::set_int_range(0, n as int),
                        dset,
                    );
                    assert(false);
                }
            }
            return Err(EvalError::Cycle);
        } else {
            proof {
                // every source of `pick` has strictly smaller rank, hence is
                // done: otherwise it would contradict pick's minimality
                assert forall|k: int|
                    0 <= k < g@.nodes[pick as int].inputs.len() implies done@[(
                #[trigger] g@.nodes[pick as int].inputs[k]).node as int] by {
                    if g@.live(pick as int) {
                        let src = g@.nodes[pick as int].inputs[k].node as int;
                        assert(g@.valid_outlet(g@.nodes[pick as int].inputs[k]));
                        assert(g@.edge(src, pick as int));
                        assert(nat_ranks(ranks@)[src] < nat_ranks(ranks@)[pick as int]);
                        if !done@[src] {
                            assert(ranks@[pick as int] <= ranks@[src]);
                        }
                    } else {
                        assert(g@.nodes[pick as int].inputs.len() == 0);
                    }
                }
            }
            // compute the node's tensor
            let node = &g.nodes[pick];
            let value: Tensor = match &node.op {
                Op::Removed => {
                    // tombstones produce nothing and feed nothing
                    Tensor { dt: crate::fact::DatumType::Int32, shape: Vec::new(), data: Vec::new() }
                },
                Op::Source => {
                    let mut k: usize = 0;
                    let mut found: usize = g.inputs.len();
                    while k < g.inputs.len() && found == g.inputs.len()
                        invariant
                            k <= g.inputs.len(),
                            found == g.inputs.len() || (found < k && g@.inputs[found as int].node
                                == pick && input_index(g@, pick as int) == Some(found as int)),
                            found == g.inputs.len() ==> input_index(g@, pick as int) == input_index_from(
                                g@,
                                pick as int,
                                k as int,
                            ),
                        decreases g.inputs.len() - k,
                    {
                        if g.inputs[k].node == pick {
                            found = k;
                        }
                        k += 1;
                    }
                    if found == g.inputs.len() {
                        proof {
                            assert(input_index(g@, pick as int) is None);
                        }
                        return Err(EvalError::BadInputs { node: pick });
                    }
                    proof {
                        assert(ins_m[found as int] == inputs@[found as int]@);
                    }
                    inputs[found].duplicate()
                },
                Op::Const(t) => t.duplicate(),
                Op::Identity | Op::AddConst(_) | Op::MulConst(_) | Op::Affine { .. }
                    | Op::LinearKernel { .. } => {
                    if !(node.inputs.len() == 1 && node.inputs[0].slot == 0) {
                        return Err(EvalError::BadOperand { node: pick });
                    }
                    let src = node.inputs[0].node;
                    proof {
                        if g@.live(pick as int) {
                            assert(g@.valid_outlet(g@.nodes[pick as int].inputs[0]));
                        }
                        assert(src < n);
                        assert(tensor_models(vals@)[src as int] == vals@[src as int]@);
                    }
                    crate::ops::map_tensor(&node.op, &vals[src])
                },
                Op::SlidingSum { window } => {
                    if !(node.inputs.len() == 1 && node.inputs[0].slot == 0 && *window >= 1) {
                        return Err(EvalError::BadOperand { node: pick });
                    }
                    let src = node.inputs[0].node;
                    proof {
                        if g@.live(pick as int) {
                            assert(g@.valid_outlet(g@.nodes[pick as int].inputs[0]));
                        }
                        assert(src < n);
                    }
                    if vals[src].shape.len() != 1 {
                        proof {
                            assert(tensor_models(vals@)[src as int].shape.len() != 1);
                        }
                        return Err(EvalError::BadOperand { node: pick });
                    }
                    let data = sliding_sums(&vals[src].data, *window);
                    let t = Tensor {
                        dt: vals[src].dt,
                        shape: crate::fact::clone_usizes(&vals[src].shape),
                        data,
                    };
                    proof {
                        let sm = tensor_models(vals@)[src as int];
                        assert(t@ =~= (TensorModel {
                            dt: sm.dt,
                            shape: sm.shape,
                            data: sliding_seq(sm.data, *window as nat),
                        }));
                    }
                    t
                },
                Op::PulsedSlidingSum { .. } => {
                    return Err(EvalError::Unsupported { node: pick });
                },
            };
            let ghost old_vals = tensor_models(vals@);
            vals.set(pick, value);
            done.set(pick, true);
            proof {
                dset = dset.insert(pick as int);
            }
            proof {
                let new_vals = tensor_models(vals@);
                // older nodes read only done sources, whose values are untouched
                assert forall|j2: int|
                    0 <= j2 < n && done@[j2] && g@.live(j2) implies node_out(g@, ins_m, new_vals, j2)
                        == Ok::<TensorModel, EvalError>(#[trigger] new_vals[j2]) by {
                    if j2 != pick as int {
                        assert(node_out(g@, ins_m, old_vals, j2) == Ok::<TensorModel, EvalError>(
                            old_vals[j2],
                        ));
                        assert(new_vals[j2] == old_vals[j2]);
                        if g@.nodes[j2].inputs.len() == 1 {
                            let src = g@.nodes[j2].inputs[0].node as int;
                            assert(done@[src]);
                            assert(src != pick as int);
                            assert(new_vals[src] == old_vals[src]);
                        }
                    } else {
                        assert(new_vals[pick as int] == value@);
                        if g@.nodes[j2].inputs.len() == 1 && g@.nodes[j2].inputs[0].slot == 0 {
                            let src = g@.nodes[j2].inputs[0].node as int;
                            assert(done@[src] || src == pick as int);
                            if src != pick as int {
                                assert(new_vals[src] == old_vals[src]);
                            }
                        }
                    }
                }
                assert forall|j2: int|
                    0 <= j2 < n && !done@[j2] implies forall|j3: int|
                        0 <= j3 < n && done@[j3] && g@.live(j3) ==> !g@.edge(j2, j3) by {
                    assert forall|j3: int|
                        0 <= j3 < n && done@[j3] && g@.live(j3) implies !g@.edge(j2, j3) by {
                        if g@.edge(j2, j3) {
                            let k = choose|k: int|
                                0 <= k < g@.nodes[j3].inputs.len() && g@.nodes[j3].inputs[k].node
                                    == j2;
                            assert(done@[(g@.nodes[j3].inputs[k]).node as int]);
                        }
                    }
                }
            }
            count += 1;
        }
    }
    proof {
        // everything is processed when the loop ends with `count == n`
        assert forall|j: int| 0 <= j < n implies done@[j] by {
            if !dset.contains(j) {
                vstd::set_lib::lemma_int_range(0, n as int);
                dset.lemma_subset_not_in_lt(vstd::set_lib::set_int_range(0, n as int), j);
            }
        }
    }
    // all nodes processed: read the designated outputs
    let mut outs: Vec<Tensor> = Vec::new();
    let mut k: usize = 0;
    while k < g.outputs.len()
        invariant
            g@.wf(),
            n == g.nodes.len(),
            vals.len() == n,
            done.len() == n,
            k <= g.outputs.len(),
            outs.len() == k,
            ins_m == tensor_models(inputs@),
            forall|j: int|
                0 <= j < n && #[trigger] done@[j] && g@.live(j) ==> node_out(
                    g@,
                    ins_m,
                    tensor_models(vals@),
                    j,
                ) == Ok::<TensorModel, EvalError>(tensor_models(vals@)[j]),
            forall|j: int| 0 <= j < n ==> done@[j],
            forall|k2: int|
                0 <= k2 < k ==> (#[trigger] outs@[k2])@ == tensor_models(vals@)[g@.outputs[k2].node as int],
        decreases g.outputs.len() - k,
    {
        let o = g.outputs[k];
        proof {
            assert(g@.valid_outlet(g@.outputs[k as int]));
            assert(tensor_models(vals@)[o.node as int] == vals@[o.node as int]@);
        }
        outs.push(vals[o.node].duplicate());
        k += 1;
    }
    proof {
        let vm = tensor_models(vals@);
        assert(consistent_vals(g@, ins_m, vm));
    }
    Ok(outs)
}


/// The models of the per-node histories.
pub open spec fn hist_models(v: Seq<Vec<i64>>) -> Seq<Seq<i64>> {
    v.map_values(|h: Vec<i64>| h@)
}

/// The run-time state of a pulsed graph: one history buffer per node (empty
/// for every operation that carries no state).
pub struct PulseState {
    pub histories: Vec<Vec<i64>>,
}

/// The initial state: every pulsed windowed sum starts with `window - 1`
/// zeroes, the history of the empty stream.
pub open spec fn init_hist(op: OpModel) -> Seq<i64> {
    match op {
        OpModel::PulsedSlidingSum { window } => {
            if window >= 1 {
                history_of(Seq::empty(), window as nat)
            } else {
                Seq::empty()
            }
        },
        _ => Seq::empty(),
    }
}

/// What one pulsed node produces, and the history it carries forward.
pub open spec fn node_out_pulsed(
    g: GraphModel,
    inputs: Seq<TensorModel>,
    vals: Seq<TensorModel>,
    hists: Seq<Seq<i64>>,
    n: int,
) -> Result<(TensorModel, Seq<i64>), EvalError> {
    let op = g.nodes[n].op;
    match op {
        OpModel::PulsedSlidingSum { window } => {
            if g.nodes[n].inputs.len() == 1 && g.nodes[n].inputs[0].slot == 0 && window >= 1 && {
                let t = vals[g.nodes[n].inputs[0].node as int];
                t.shape.len() == 1
            } {
                let t = vals[g.nodes[n].inputs[0].node as int];
                Ok(
                    (
                        TensorModel {
                            dt: t.dt,
                            shape: t.shape,
                            data: pulse_out(hists[n], t.data, window as nat),
                        },
                        (hists[n] + t.data).skip(t.data.len() as int),
                    ),
                )
            } else {
                Err(EvalError::BadOperand { node: n as usize })
            }
        },
        OpModel::SlidingSum { .. } => Err(EvalError::Unsupported { node: n as usize }),
        _ => {
            match node_out(g, inputs, vals, n) {
                Ok(t) => Ok((t, hists[n])),
                Err(e) => Err(e),
            }
        },
    }
}

/// A consistent pulsed step: every live node produces its tensor and its
/// carried history.
pub open spec fn consistent_pulse(
    g: GraphModel,
    inputs: Seq<TensorModel>,
    vals: Seq<TensorModel>,
    hists: Seq<Seq<i64>>,
    new_hists: Seq<Seq<i64>>,
) -> bool {
    &&& vals.len() == g.nodes.len()
    &&& new_hists.len() == g.nodes.len()
    &&& hists.len() == g.nodes.len()
    &&& forall|n: int|
        g.live(n) ==> node_out_pulsed(g, inputs, vals, hists, n) == Ok::<
            (TensorModel, Seq<i64>),
            EvalError,
        >((#[trigger] vals[n], new_hists[n]))
    &&& forall|n: int| 0 <= n < g.nodes.len() && !g.live(n) ==> #[trigger] new_hists[n] == hists[n]
}

impl PulseState {
    /// The initial state for a pulsed graph.
    pub fn init(g: &Graph) -> (r: PulseState)
        ensures
            r.histories@.len() == g@.nodes.len(),
            forall|n: int|
                0 <= n < g@.nodes.len() ==> #[trigger] hist_models(r.histories@)[n] == init_hist(
                    g@.nodes[n].op,
                ),
    {
        let mut histories: Vec<Vec<i64>> = Vec::new();
        let mut n: usize = 0;
        while n < g.nodes.len()
            invariant
                n <= g.nodes.len(),
                histories.len() == n,
                forall|j: int| 0 <= j < n ==> #[trigger] histories@[j]@ == init_hist(g@.nodes[j].op),
            decreases g.nodes.len() - n,
        {
            let h: Vec<i64> = match &g.nodes[n].op {
                Op::PulsedSlidingSum { window } => {
                    let w = *window;
                    let mut h: Vec<i64> = Vec::new();
                    let mut i: usize = 0;
                    let target = if w >= 1 {
                        w - 1
                    } else {
                        0
                    };
                    while i < target
                        invariant
                            i <= target,
                            h.len() == i,
                            forall|j: int| 0 <= j < i ==> h@[j] == 0i64,
                        decreases target - i,
                    {
                        h.push(0);
                        i += 1;
                    }
                    proof {
                        assert(h@ =~= init_hist(g@.nodes[n as int].op));
                    }
                    h
                },
                _ => Vec::new(),
            };
            proof {
                assert(h@ =~= init_hist(g@.nodes[n as int].op));
            }
            histories.push(h);
            n += 1;
        }
        proof {
            assert forall|n2: int|
                0 <= n2 < g@.nodes.len() implies #[trigger] hist_models(histories@)[n2] == init_hist(
                g@.nodes[n2].op,
            ) by {
                assert(hist_models(histories@)[n2] == histories@[n2]@);
            }
        }
        PulseState { histories }
    }
}

/// Feed the pulsed graph one pulse: every node computes its window, the
/// stateful nodes carry their histories forward. On success the outputs and
/// the new state are exactly those of a consistent pulsed step.
pub fn pulse_step(g: &Graph, state: &mut PulseState, inputs: &Vec<Tensor>) -> (r: Result<
    Vec<Tensor>,
    EvalError,
>)
    requires
        g@.wf(),
        inputs@.len() == g@.inputs.len(),
        old(state).histories@.len() == g@.nodes.len(),
    ensures
        match r {
            Ok(outs) => exists|vals: Seq<TensorModel>|
                {
                    &&& #[trigger] consistent_pulse(
                        g@,
                        tensor_models(inputs@),
                        vals,
                        hist_models(old(state).histories@),
                        hist_models(final(state).histories@),
                    )
                    &&& outs@.len() == g@.outputs.len()
                    &&& forall|k: int|
                        0 <= k < g@.outputs.len() ==> (#[trigger] outs@[k])@ == vals[g@.outputs[k].node as int]
                },
            Err(_) => final(state).histories@.len() == g@.nodes.len(),
        },
{
    let ghost ins_m = tensor_models(inputs@);
    let ghost hists0 = hist_models(state.histories@);
    let ranks = match toposort(g) {
        None => {
            return Err(EvalError::Cycle);
        },
        Some(rr) => rr,
    };
    let n = g.nodes.len();
    let mut vals: Vec<Tensor> = Vec::new();
    let mut done: Vec<bool> = Vec::new();
    let mut i: usize = 0;
    while i < n
        invariant
            i <= n,
            vals.len() == i,
            done.len() == i,
            forall|j: int| 0 <= j < i ==> !done@[j],
        decreases n - i,
    {
        vals.push(Tensor { dt: crate::fact::DatumType::Int32, shape: Vec::new(), data: Vec::new() });
        done.push(false);
        i += 1;
    }
    let ghost mut dset: Set<int> = Set::empty();
    let mut count: usize = 0;
    while count < n
        invariant
            dset.finite(),
            dset.len() == count,
            forall|j: int| dset.contains(j) ==> 0 <= j < n,
            forall|j: int| 0 <= j < n ==> (done@[j] <==> dset.contains(j)),
            g@.wf(),
            ins_m == tensor_models(inputs@),
            hists0 == hist_models(old(state).histories@),
            inputs@.len() == g@.inputs.len(),
            n == g.nodes.len(),
            vals.len() == n,
            done.len() == n,
            count <= n,
            state.histories@.len() == n,
            g@.respects_ranks(nat_ranks(ranks@)),
            ranks.len() == n,
            forall|j: int|
                0 <= j < n && !(#[trigger] done@[j]) ==> hist_models(state.histories@)[j]
                    == hists0[j],
            forall|j: int|
                0 <= j < n && #[trigger] done@[j] && !g@.live(j) ==> hist_models(
                    state.histories@,
                )[j] == hists0[j],
            forall|j: int|
                0 <= j < n && #[trigger] done@[j] && g@.live(j) ==> node_out_pulsed(
                    g@,
                    ins_m,
                    tensor_models(vals@),
                    hists0,
                    j,
                ) == Ok::<(TensorModel, Seq<i64>), EvalError>(
                    (tensor_models(vals@)[j], hist_models(state.histories@)[j]),
                ),
            forall|j: int, k: int|
                0 <= j < n && done@[j] && 0 <= k < g@.nodes[j].inputs.len() ==> done@[(
                #[trigger] g@.nodes[j].inputs[k]).node as int],
        decreases n - count,
    {
        let mut pick: usize = n;
        let mut j: usize = 0;
        while j < n
            invariant
                j <= n,
                n == g.nodes.len(),
                done.len() == n,
                ranks.len() == n,
                pick == n || (pick < n && !done@[pick as int]),
                pick < n ==> forall|j2: int|
                    0 <= j2 < j && !done@[j2] ==> ranks@[pick as int] <= #[trigger] ranks@[j2],
                pick == n ==> forall|j2: int| 0 <= j2 < j ==> done@[j2],
            decreases n - j,
        {
            if !done[j] && (pick == n || ranks[j] < ranks[pick]) {
                pick = j;
            }
            j += 1;
        }
        if pick == n {
            proof {
                vstd::set_lib::lemma_int_range(0, n as int);
                if !vstd::set_lib::set_int_range(0, n as int).subset_of(dset) {
                    let j2 = choose|j2: int|
                        vstd::set_lib::set_int_range(0, n as int).contains(j2) && !dset.contains(
                            j2,
                        );
                    assert(!done@[j2]);
                    assert(false);
                } else {
                    vstd::set_lib::lemma_len_subset(
                        vstd::set_lib::set_int_range(0, n as int),
                        dset,
                    );
                    assert(false);
                }
            }
            return Err(EvalError::Cycle);
        }
        proof {
            assert forall|k: int|
                0 <= k < g@.nodes[pick as int].inputs.len() implies done@[(
            #[trigger] g@.nodes[pick as int].inputs[k]).node as int] by {
                if g@.live(pick as int) {
                    let src = g@.nodes[pick as int].inputs[k].node as int;
                    assert(g@.valid_outlet(g@.nodes[pick as int].inputs[k]));
                    assert(g@.edge(src, pick as int));
                    assert(nat_ranks(ranks@)[src] < nat_ranks(ranks@)[pick as int]);
                    if !done@[src] {
                        assert(ranks@[pick as int] <= ranks@[src]);
                    }
                } else {
                    assert(g@.nodes[pick as int].inputs.len() == 0);
                }
            }
        }
        let node = &g.nodes[pick];
        let mut new_hist: Option<Vec<i64>> = None;
        let value: Tensor = match &node.op {
            Op::Removed => {
                Tensor { dt: crate::fact::DatumType::Int32, shape: Vec::new(), data: Vec::new() }
            },
            Op::Source => {
                let mut k: usize = 0;
                let mut found: usize = g.inputs.len();
                while k < g.inputs.len() && found == g.inputs.len()
                    invariant
                        k <= g.inputs.len(),
                        found == g.inputs.len() || (found < k && g@.inputs[found as int].node
                            == pick && input_index(g@, pick as int) == Some(found as int)),
                        found == g.inputs.len() ==> input_index(g@, pick as int) == input_index_from(
                            g@,
                            pick as int,
                            k as int,
                        ),
                    decreases g.inputs.len() - k,
                {
                    if g.inputs[k].node == pick {
                        found = k;
                    }
                    k += 1;
                }
                if found == g.inputs.len() {
                    proof {
                        assert(input_index(g@, pick as int) is None);
                    }
                    return Err(EvalError::BadInputs { node: pick });
                }
                proof {
                    assert(ins_m[found as int] == inputs@[found as int]@);
                }
                inputs[found].duplicate()
            },
            Op::Const(t) => t.duplicate(),
            Op::Identity | Op::AddConst(_) | Op::MulConst(_) | Op::Affine { .. }
                | Op::LinearKernel { .. } => {
                if !(node.inputs.len() == 1 && node.inputs[0].slot == 0) {
                    return Err(EvalError::BadOperand { node: pick });
                }
                let src = node.inputs[0].node;
                proof {
                    if g@.live(pick as int) {
                        assert(g@.valid_outlet(g@.nodes[pick as int].inputs[0]));
                    }
                    assert(src < n);
                    assert(tensor_models(vals@)[src as int] == vals@[src as int]@);
                }
                crate::ops::map_tensor(&node.op, &vals[src])
            },
            Op::SlidingSum { .. } => {
                return Err(EvalError::Unsupported { node: pick });
            },
            Op::PulsedSlidingSum { window } => {
                if !(node.inputs.len() == 1 && node.inputs[0].slot == 0 && *window >= 1) {
                    return Err(EvalError::BadOperand { node: pick });
                }
                let src = node.inputs[0].node;
                proof {
                    if g@.live(pick as int) {
                        assert(g@.valid_outlet(g@.nodes[pick as int].inputs[0]));
                    }
                    assert(src < n);
                }
                if vals[src].shape.len() != 1 {
                    proof {
                        assert(tensor_models(vals@)[src as int].shape.len() != 1);
                    }
                    return Err(EvalError::BadOperand { node: pick });
                }
                // compute the window outputs against history + chunk
                let mut ext: Vec<i64> = crate::fact::clone_i64s(&state.histories[pick]);
                let hl = ext.len();
                let mut q: usize = 0;
                while q < vals[src].data.len()
                    invariant
                        q <= vals@[src as int].data.len(),
                        src < n,
                        pick < n,
                        vals.len() == n,
                        state.histories@.len() == n,
                        ext@ =~= state.histories@[pick as int]@ + vals@[src as int].data@.take(
                            q as int,
                        ),
                        hl == state.histories@[pick as int]@.len(),
                    decreases vals@[src as int].data.len() - q,
                {
                    let x = vals[src].data[q];
                    ext.push(x);
                    proof {
                        assert(ext@ =~= state.histories@[pick as int]@ + vals@[src as int].data@.take(
                            q as int + 1,
                        ));
                    }
                    q += 1;
                }
                proof {
                    assert(vals@[src as int].data@.take(vals@[src as int].data@.len() as int)
                        =~= vals@[src as int].data@);
                }
                let full_sums = sliding_sums(&ext, *window);
                proof {
                    assert(ext@.len() == ext.len());
                }
                // the outputs are the sums at the chunk's positions
                let mut data: Vec<i64> = Vec::new();
                let mut t2: usize = 0;
                while t2 < vals[src].data.len()
                    invariant
                        t2 <= vals@[src as int].data.len(),
                        src < n,
                        vals.len() == n,
                        full_sums@ == sliding_seq(ext@, *window as nat),
                        ext@.len() <= usize::MAX,
                        ext@.len() == hl + vals@[src as int].data@.len(),
                        data.len() == t2,
                        forall|t3: int|
                            0 <= t3 < t2 ==> data@[t3] == sliding_seq(ext@, *window as nat)[hl
                                + t3],
                    decreases vals@[src as int].data.len() - t2,
                {
                    data.push(full_sums[hl + t2]);
                    t2 += 1;
                }
                // the carried history: the last `window - 1` of history + chunk
                let mut nh: Vec<i64> = Vec::new();
                let chunk_len = vals[src].data.len();
                let mut q2: usize = chunk_len;
                while q2 < ext.len()
                    invariant
                        chunk_len <= q2 <= ext@.len(),
                        nh.len() == q2 - chunk_len,
                        forall|t3: int| 0 <= t3 < nh.len() ==> nh@[t3] == ext@[chunk_len + t3],
                    decreases ext@.len() - q2,
                {
                    nh.push(ext[q2]);
                    q2 += 1;
                }
                proof {
                    assert(nh@ =~= ext@.skip(chunk_len as int));
                }
                new_hist = Some(nh);
                let t = Tensor {
                    dt: vals[src].dt,
                    shape: crate::fact::clone_usizes(&vals[src].shape),
                    data,
                };
                proof {
                    let sm = tensor_models(vals@)[src as int];
                    assert(ext@ =~= hist_models(state.histories@)[pick as int] + sm.data);
                    assert forall|t3: int| 0 <= t3 < sm.data.len() implies t@.data[t3] == pulse_out(
                        hist_models(state.histories@)[pick as int],
                        sm.data,
                        *window as nat,
                    )[t3] by {
                        assert(t@.data[t3] == sliding_seq(ext@, *window as nat)[hl + t3]);
                    }
                    assert(t@.data =~= pulse_out(
                        hist_models(state.histories@)[pick as int],
                        sm.data,
                        *window as nat,
                    ));
                    assert(t@ =~= (TensorModel {
                        dt: sm.dt,
                        shape: sm.shape,
                        data: pulse_out(
                            hist_models(state.histories@)[pick as int],
                            sm.data,
                            *window as nat,
                        ),
                    }));
                }
                t
            },
        };
        let ghost old_vals = tensor_models(vals@);
        let ghost old_hists_cur = hist_models(state.histories@);
        vals.set(pick, value);
        done.set(pick, true);
        if let Some(nh) = new_hist {
            state.histories.set(pick, nh);
        }
        proof {
            dset = dset.insert(pick as int);
            let new_vals = tensor_models(vals@);
            let new_hists_cur = hist_models(state.histories@);
            assert forall|j2: int|
                0 <= j2 < n && j2 != pick as int implies new_hists_cur[j2] == old_hists_cur[j2] by {
                assert(state.histories@[j2] == old(state).histories@[j2] || true);
            }
            assert(hists0[pick as int] == old_hists_cur[pick as int]);
            assert forall|j2: int|
                0 <= j2 < n && #[trigger] done@[j2] && g@.live(j2) implies node_out_pulsed(
                g@,
                ins_m,
                new_vals,
                hists0,
                j2,
            ) == Ok::<(TensorModel, Seq<i64>), EvalError>(
                (new_vals[j2], new_hists_cur[j2]),
            ) by {
                if j2 != pick as int {
                    assert(node_out_pulsed(g@, ins_m, old_vals, hists0, j2) == Ok::<
                        (TensorModel, Seq<i64>),
                        EvalError,
                    >((old_vals[j2], old_hists_cur[j2])));
                    assert(new_vals[j2] == old_vals[j2]);
                    if g@.nodes[j2].inputs.len() == 1 {
                        let src = g@.nodes[j2].inputs[0].node as int;
                        assert(done@[src]);
                        assert(src != pick as int);
                        assert(new_vals[src] == old_vals[src]);
                    }
                } else {
                    assert(new_vals[pick as int] == value@);
                    if g@.nodes[j2].inputs.len() == 1 && g@.nodes[j2].inputs[0].slot == 0 {
                        let src = g@.nodes[j2].inputs[0].node as int;
                        assert(done@[src] || src == pick as int);
                        if src != pick as int {
                            assert(new_vals[src] == old_vals[src]);
                        }
                    }
                }
            }
        }
        count += 1;
    }
    proof {
        assert forall|j: int| 0 <= j < n implies done@[j] by {
            if !dset.contains(j) {
                vstd::set_lib::lemma_int_range(0, n as int);
                dset.lemma_subset_not_in_lt(vstd::set_lib::set_int_range(0, n as int), j);
            }
        }
    }
    let mut outs: Vec<Tensor> = Vec::new();
    let mut k: usize = 0;
    while k < g.outputs.len()
        invariant
            g@.wf(),
            n == g.nodes.len(),
            vals.len() == n,
            done.len() == n,
            k <= g.outputs.len(),
            outs.len() == k,
            ins_m == tensor_models(inputs@),
            hists0 == hist_models(old(state).histories@),
            state.histories@.len() == n,
            forall|j: int|
                0 <= j < n && #[trigger] done@[j] && !g@.live(j) ==> hist_models(
                    state.histories@,
                )[j] == hists0[j],
            forall|j: int|
                0 <= j < n && #[trigger] done@[j] && g@.live(j) ==> node_out_pulsed(
                    g@,
                    ins_m,
                    tensor_models(vals@),
                    hists0,
                    j,
                ) == Ok::<(TensorModel, Seq<i64>), EvalError>(
                    (tensor_models(vals@)[j], hist_models(state.histories@)[j]),
                ),
            forall|j: int| 0 <= j < n ==> done@[j],
            forall|k2: int|
                0 <= k2 < k ==> (#[trigger] outs@[k2])@ == tensor_models(vals@)[g@.outputs[k2].node as int],
        decreases g.outputs.len() - k,
    {
        let o = g.outputs[k];
        proof {
            assert(g@.valid_outlet(g@.outputs[k as int]));
            assert(tensor_models(vals@)[o.node as int] == vals@[o.node as int]@);
        }
        outs.push(vals[o.node].duplicate());
        k += 1;
    }
    proof {
        let vm = tensor_models(vals@);
        assert forall|j: int|
            0 <= j < g@.nodes.len() && !g@.live(j) implies #[trigger] hist_models(
            state.histories@,
        )[j] == hists0[j] by {
            assert(done@[j]);
            assert(g@.nodes[j].op is Removed);
        }
        assert(consistent_pulse(
            g@,
            ins_m,
            vm,
            hists0,
            hist_models(state.histories@),
        ));
    }
    Ok(outs)
}


/// Pulse equivalence for the element-wise operations: they carry no state,
/// so applying one pulse by pulse and concatenating is applying it to the
/// whole stream. Together with the windowed law above this covers every
/// stream-processing operation of the library.
pub proof fn lemma_elementwise_pulse_equivalence(chunks: Seq<Seq<i64>>, op: OpModel)
    ensures
        concat_chunks(chunks.map_values(|c: Seq<i64>| c.map_values(|x: i64| apply_elem(op, x))))
            == concat_chunks(chunks).map_values(|x: i64| apply_elem(op, x)),
    decreases chunks.len(),
{
    let f = |x: i64| apply_elem(op, x);
    let m = |c: Seq<i64>| c.map_values(|x: i64| apply_elem(op, x));
    if chunks.len() == 0 {
        assert(concat_chunks(chunks.map_values(m)) =~= concat_chunks(chunks).map_values(f));
    } else {
        lemma_elementwise_pulse_equivalence(chunks.skip(1), op);
        assert(chunks.map_values(m).skip(1) =~= chunks.skip(1).map_values(m));
        assert(concat_chunks(chunks.map_values(m)) =~= chunks.map_values(m)[0] + concat_chunks(
            chunks.map_values(m).skip(1),
        ));
        assert(concat_chunks(chunks).map_values(f) =~= chunks[0].map_values(f) + concat_chunks(
            chunks.skip(1),
        ).map_values(f));
    }
}

} // verus!
