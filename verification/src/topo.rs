//! Topological scheduling of a graph, and the proof that a schedule exists
//! exactly when the graph has no cycle.
//!
//! Cycles are rejected when a patch is applied; the scheduler below is the
//! runtime check, and its two postconditions tie the outcome to the two spec
//! views of acyclicity (a rank witness, or a stuck set).

use vstd::prelude::*;
use vstd::set_lib::{lemma_int_range, lemma_len_subset, set_int_range};

use crate::graph::{Graph, GraphModel};

verus! {

/// Exec ranks read as the mathematical ranks.
pub open spec fn nat_ranks(r: Seq<usize>) -> Seq<nat> {
    r.map_values(|x: usize| x as nat)
}

/// The node feeding input slot `k` of node `j`.
pub open spec fn src_of(g: GraphModel, j: int, k: int) -> int {
    g.nodes[j].inputs[k].node as int
}

/// Recursively locate a member of `s` of least rank.
proof fn lemma_min_rank_member(s: Set<int>, r: Seq<nat>) -> (m: int)
    requires
        s.finite(),
        !s.is_empty(),
        forall|x: int| s.contains(x) ==> 0 <= x < r.len(),
    ensures
        s.contains(m),
        forall|x: int| s.contains(x) ==> r[m] <= r[x],
    decreases s.len(),
{
    let x = s.choose();
    assert(s.contains(x));
    let rest = s.remove(x);
    if rest.is_empty() {
        assert forall|y: int| s.contains(y) implies r[x] <= r[y] by {
            if y != x {
                assert(rest.contains(y));
            }
        }
        x
    } else {
        let m0 = lemma_min_rank_member(rest, r);
        if r[x] < r[m0] {
            x
        } else {
            m0
        }
    }
}

/// A rank witness rules out every stuck set: the member of least rank would
/// need a member of smaller rank feeding it.
pub proof fn lemma_ranks_no_stuck(g: GraphModel, r: Seq<nat>, s: Set<int>)
    requires
        g.respects_ranks(r),
    ensures
        !g.stuck_set(s),
{
    if g.stuck_set(s) {
        let m = lemma_min_rank_member(s, r);
        let k = choose|k: int|
            0 <= k < g.nodes[m].inputs.len() && s.contains(g.nodes[m].inputs[k].node as int);
        let p = g.nodes[m].inputs[k].node as int;
        assert(g.edge(p, m));
        assert(r[p] < r[m]);
    }
}

/// An acyclic graph has no stuck set.
pub proof fn lemma_acyclic_no_stuck(g: GraphModel, s: Set<int>)
    requires
        g.acyclic(),
    ensures
        !g.stuck_set(s),
{
    let r = choose|r: Seq<nat>| g.respects_ranks(r);
    lemma_ranks_no_stuck(g, r, s);
}

/// All input slots of node `j` read from scheduled nodes.
fn preds_done(g: &Graph, done: &Vec<bool>, j: usize) -> (r: bool)
    requires
        j < g.nodes.len(),
        done.len() == g.nodes.len(),
        forall|k: int|
            0 <= k < g@.nodes[j as int].inputs.len() ==> 0 <= #[trigger] src_of(g@, j as int, k)
                < g.nodes.len(),
    ensures
        r == (forall|k: int|
            0 <= k < g@.nodes[j as int].inputs.len() ==> done@[#[trigger] src_of(g@, j as int, k)]),
{
    let node = &g.nodes[j];
    let mut k: usize = 0;
    while k < node.inputs.len()
        invariant
            k <= node.inputs.len(),
            node == &g.nodes[j as int],
            j < g.nodes.len(),
            done.len() == g.nodes.len(),
            forall|k2: int|
                0 <= k2 < g@.nodes[j as int].inputs.len() ==> 0 <= #[trigger] src_of(
                    g@,
                    j as int,
                    k2,
                ) < g.nodes.len(),
            forall|k2: int| 0 <= k2 < k ==> done@[#[trigger] src_of(g@, j as int, k2)],
        decreases node.inputs.len() - k,
    {
        assert(g@.nodes[j as int].inputs[k as int] == node.inputs@[k as int]);
        assert(0 <= src_of(g@, j as int, k as int) < g.nodes.len());
        if !done[node.inputs[k].node] {
            proof {
                assert(!done@[src_of(g@, j as int, k as int)]);
            }
            return false;
        }
        k += 1;
    }
    true
}

/// Schedule the nodes of `g`: every input is read from a node of smaller
/// rank. Returns `None` exactly when the graph has a cycle.
pub fn toposort(g: &Graph) -> (r: Option<Vec<usize>>)
    requires
        g@.inputs_ok(),
        g@.removed_ok(),
    ensures
        match r {
            Some(ranks) => g@.respects_ranks(nat_ranks(ranks@)) && ranks.len() == g.nodes.len(),
            None => !g@.acyclic(),
        },
{
    let n = g.nodes.len();
    let mut ranks: Vec<usize> = Vec::new();
    let mut done: Vec<bool> = Vec::new();
    let mut i: usize = 0;
    while i < n
        invariant
            i <= n,
            ranks.len() == i,
            done.len() == i,
            forall|j: int| 0 <= j < i ==> !done@[j],
        decreases n - i,
    {
        ranks.push(0);
        done.push(false);
        i += 1;
    }
    let ghost mut dset: Set<int> = Set::empty();
    let mut count: usize = 0;
    while count < n
        invariant
            g@.inputs_ok(),
            g@.removed_ok(),
            n == g.nodes.len(),
            ranks.len() == n,
            done.len() == n,
            count <= n,
            dset.finite(),
            dset.len() == count,
            forall|j: int| dset.contains(j) ==> 0 <= j < n,
            forall|j: int| 0 <= j < n ==> (done@[j] <==> dset.contains(j)),
            forall|j: int| 0 <= j < n && done@[j] ==> ranks@[j] < count,
            forall|j: int, k: int|
                0 <= j < n && done@[j] && 0 <= k < g@.nodes[j].inputs.len() ==> {
                    let p = #[trigger] src_of(g@, j, k);
                    done@[p] && ranks@[p] < ranks@[j]
                },
        decreases n - count,
    {
        let mut pick: usize = n;
        let mut j: usize = 0;
        while j < n && pick == n
            invariant
                n == g.nodes.len(),
                done.len() == n,
                j <= n,
                g@.inputs_ok(),
                g@.removed_ok(),
                pick == n || (pick < n && !done@[pick as int] && forall|k: int|
                    0 <= k < g@.nodes[pick as int].inputs.len() ==> done@[#[trigger] src_of(
                        g@,
                        pick as int,
                        k,
                    )]),
                pick == n ==> forall|j2: int|
                    0 <= j2 < j ==> (done@[j2] || exists|k: int|
                        0 <= k < g@.nodes[j2].inputs.len() && !done@[#[trigger] src_of(g@, j2, k)]),
            decreases n - j,
        {
            proof {
                if !(g@.nodes[j as int].op is Removed) {
                    assert(g@.live(j as int));
                    assert forall|k: int|
                        0 <= k < g@.nodes[j as int].inputs.len() implies 0 <= #[trigger] src_of(
                        g@,
                        j as int,
                        k,
                    ) < n by {
                        assert(g@.valid_outlet(g@.nodes[j as int].inputs[k]));
                    }
                } else {
                    assert(g@.nodes[j as int].inputs.len() == 0);
                }
            }
            if !done[j] && preds_done(g, &done, j) {
                pick = j;
            }
            j += 1;
        }
        if pick == n {
            proof {
                // Every unscheduled node waits on another unscheduled node:
                // the unscheduled nodes form a stuck set, so there is a cycle.
                let s = set_int_range(0, n as int).difference(dset);
                lemma_int_range(0, n as int);
                if s.is_empty() {
                    assert forall|x: int|
                        set_int_range(0, n as int).contains(x) implies dset.contains(x) by {
                        assert(!s.contains(x));
                    }
                    lemma_len_subset(set_int_range(0, n as int), dset);
                    assert(false);
                }
                assert forall|m: int| s.contains(m) implies exists|k: int|
                    0 <= k < g@.nodes[m].inputs.len() && s.contains(
                        g@.nodes[m].inputs[k].node as int,
                    ) by {
                    assert(0 <= m < n && !done@[m]);
                    let k = choose|k: int|
                        0 <= k < g@.nodes[m].inputs.len() && !done@[#[trigger] src_of(g@, m, k)];
                    assert(!(g@.nodes[m].op is Removed));
                    assert(g@.live(m));
                    assert(g@.valid_outlet(g@.nodes[m].inputs[k]));
                    let p = src_of(g@, m, k);
                    assert(0 <= p < n && !done@[p]);
                    assert(s.contains(p));
                    assert(g@.nodes[m].inputs[k].node as int == p);
                }
                assert(g@.stuck_set(s));
                if g@.acyclic() {
                    lemma_acyclic_no_stuck(g@, s);
                }
            }
            return None;
        }
        ranks.set(pick, count);
        done.set(pick, true);
        proof {
            dset = dset.insert(pick as int);
        }
        count += 1;
    }
    proof {
        // Everything is scheduled: the ranks witness acyclicity.
        assert forall|j: int| 0 <= j < n implies done@[j] by {
            if !dset.contains(j) {
                lemma_int_range(0, n as int);
                dset.lemma_subset_not_in_lt(set_int_range(0, n as int), j);
            }
        }
        assert forall|m: int, p: int|
            0 <= m < n && 0 <= p < n && g@.edge(m, p) implies nat_ranks(ranks@)[m] < nat_ranks(
            ranks@,
        )[p] by {
            let k = choose|k: int|
                0 <= k < g@.nodes[p].inputs.len() && g@.nodes[p].inputs[k].node == m;
            assert(done@[p]);
            assert(src_of(g@, p, k) == m);
        }
        assert(g@.respects_ranks(nat_ranks(ranks@)));
    }
    Some(ranks)
}

} // verus!
