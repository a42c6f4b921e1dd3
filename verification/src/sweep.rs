//! Sweep scheduler/simulator.
//!
//! For every direction the scheduler builds the task dependency graph,
//! derives a topological execution order, and simulates scheduled execution:
//! a task charges one compute quantum to its owning processor; a dependency
//! owned by another processor charges the dependent's processor one
//! communication quantum and can force it to idle until the dependency's
//! completion time plus that charge is reached; a same-processor dependency
//! costs nothing beyond natural ordering. A direction whose dependency graph
//! is cyclic is a hard error, never a silent loop.

use vstd::prelude::*;

use crate::graph::{
    count_true, lemma_count_true_all_false, lemma_count_true_all_true, lemma_count_true_full,
    lemma_count_true_update, lemma_filter_push, Graph,
};
use crate::grid::{downwind_pair, pair_unit, Cell, Direction, Face, Grid, Task};
use crate::run_data::{Processor, RunData, spec_max_time, spec_sum_comm, spec_sum_wait};

verus! {

/// Compute quantum one task charges its owning processor.
pub const TASK_TIME: u64 = 1;

/// Communication quantum one cross-processor dependency charges.
pub const COMM_TIME: u64 = 1;

/// Scheduling failure: a per-direction dependency graph admits no execution
/// order because it is cyclic.
#[derive(Clone, Copy, PartialEq, Eq, Structural, Debug)]
pub enum ScheduleError {
    CyclicDependency,
}

/// Value `v` occurs somewhere in the order.
pub open spec fn appears(order: Seq<usize>, v: int) -> bool {
    exists|i: int| 0 <= i < order.len() && (#[trigger] order[i]) == v
}

/// Node `v` still waits on an unfinished predecessor: some edge ends in `v`
/// and starts at a node not yet placed.
pub open spec fn spec_blocked(edges: Seq<(usize, usize)>, placed: Seq<bool>, v: int) -> bool {
    exists|k: int|
        0 <= k < edges.len() && (#[trigger] edges[k]).1 == v && !placed[edges[k].0 as int]
}

/// A non-empty set of nodes each of which has a predecessor inside the set:
/// the certificate that no topological order exists.
pub open spec fn spec_has_blocked_set(n: int, edges: Seq<(usize, usize)>) -> bool {
    exists|s: Set<int>|
        #![auto]
        s.finite() && s.len() > 0 && (forall|v: int| s.contains(v) ==> 0 <= v < n) && (forall|
            v: int,
        |
            s.contains(v) ==> exists|k: int|
                0 <= k < edges.len() && (#[trigger] edges[k]).1 == v && s.contains(
                    edges[k].0 as int,
                ))
}

/// First node, in position order, that is unplaced and has no unplaced
/// predecessor, scanning from `v`; `n` when none is ready.
pub open spec fn spec_find_ready(
    n: int,
    edges: Seq<(usize, usize)>,
    placed: Seq<bool>,
    v: int,
) -> int
    decreases n - v,
{
    if v < 0 || v >= n {
        n
    } else if !placed[v] && !spec_blocked(edges, placed, v) {
        v
    } else {
        spec_find_ready(n, edges, placed, v + 1)
    }
}

/// Scheduler state after `i` placements: the order built so far and the
/// placement flags. A step where no node is ready leaves the state alone.
pub open spec fn spec_topo_state(n: int, edges: Seq<(usize, usize)>, i: int) -> (
    Seq<usize>,
    Seq<bool>,
)
    decreases i,
{
    if i <= 0 {
        (Seq::empty(), Seq::new(n as nat, |v: int| false))
    } else {
        let prev = spec_topo_state(n, edges, i - 1);
        let v = spec_find_ready(n, edges, prev.1, 0);
        if v < n {
            (prev.0.push(v as usize), prev.1.update(v, true))
        } else {
            prev
        }
    }
}

/// A scan that rejected everything below `found` and accepted `found` (or
/// exhausted the nodes) computes exactly `spec_find_ready` from the start.
proof fn lemma_find_ready_eq(
    n: int,
    edges: Seq<(usize, usize)>,
    placed: Seq<bool>,
    found: int,
    v: int,
)
    requires
        0 <= v <= found <= n,
        forall|w: int| 0 <= w < found ==> placed[w] || spec_blocked(edges, placed, w),
        found < n ==> !placed[found] && !spec_blocked(edges, placed, found),
    ensures
        spec_find_ready(n, edges, placed, v) == found,
    decreases found - v,
{
    if v < found {
        lemma_find_ready_eq(n, edges, placed, found, v + 1);
    }
}

/// Whether node `v` has an unplaced predecessor under the current placement.
fn has_unplaced_pred(v: usize, edges: &Vec<(usize, usize)>, placed: &Vec<bool>) -> (r: bool)
    requires
        forall|k: int| 0 <= k < edges@.len() ==> (#[trigger] edges@[k]).0 < placed@.len(),
    ensures
        r == spec_blocked(edges@, placed@, v as int),
{
    let mut k: usize = 0;
    while k < edges.len()
        invariant
            forall|t: int| 0 <= t < edges@.len() ==> (#[trigger] edges@[t]).0 < placed@.len(),
            k <= edges@.len(),
            forall|t: int|
                0 <= t < k ==> !((#[trigger] edges@[t]).1 == v && !placed@[edges@[t].0 as int]),
        decreases edges@.len() - k,
    {
        let e = edges[k];
        if e.1 == v && !placed[e.0] {
            return true;
        }
        k = k + 1;
    }
    false
}

/// Topological order of `n` nodes under `edges`: every node appears exactly
/// once, and every edge's source appears before its target. Fails exactly
/// when a blocked set (a cycle) exists.
pub fn topological_order(n: usize, edges: &Vec<(usize, usize)>) -> (r: Result<
    Vec<usize>,
    ScheduleError,
>)
    requires
        forall|k: int|
            0 <= k < edges@.len() ==> (#[trigger] edges@[k]).0 < n && edges@[k].1 < n,
    ensures
        r is Ok ==> {
            let order = r.unwrap()@;
            &&& order.len() == n
            &&& forall|i: int| 0 <= i < n ==> (#[trigger] order[i]) < n
            &&& forall|i1: int, i2: int|
                0 <= i1 < n && 0 <= i2 < n && i1 != i2 ==> (#[trigger] order[i1]) != (
                #[trigger] order[i2])
            &&& forall|v: int| 0 <= v < n ==> #[trigger] appears(order, v)
            &&& forall|k: int, b: int|
                0 <= k < edges@.len() && 0 <= b < n && (#[trigger] order[b]) == (
                #[trigger] edges@[k]).1 ==> exists|a: int|
                    0 <= a < b && order[a] == edges@[k].0
        },
        r is Err ==> spec_has_blocked_set(n as int, edges@),
        !spec_has_blocked_set(n as int, edges@) ==> r is Ok,
        r is Ok ==> r.unwrap()@ == spec_topo_state(n as int, edges@, n as int).0,
{
    let mut placed: Vec<bool> = Vec::new();
    let mut j: usize = 0;
    while j < n
        invariant
            j <= n,
            placed@.len() == j,
            forall|t: int| 0 <= t < j ==> !(#[trigger] placed@[t]),
        decreases n - j,
    {
        placed.push(false);
        j = j + 1;
    }
    proof {
        lemma_count_true_all_false(placed@);
        assert(placed@ =~= spec_topo_state(n as int, edges@, 0).1);
    }
    let mut order: Vec<usize> = Vec::new();
    proof {
        assert(order@ =~= spec_topo_state(n as int, edges@, 0).0);
    }
    while order.len() < n
        invariant
            placed@.len() == n,
            count_true(placed@) == order@.len(),
            order@ == spec_topo_state(n as int, edges@, order@.len() as int).0,
            placed@ == spec_topo_state(n as int, edges@, order@.len() as int).1,
            forall|k: int|
                0 <= k < edges@.len() ==> (#[trigger] edges@[k]).0 < n && edges@[k].1 < n,
            order@.len() <= n,
            forall|i: int| 0 <= i < order@.len() ==> (#[trigger] order@[i]) < n,
            forall|i1: int, i2: int|
                0 <= i1 < order@.len() && 0 <= i2 < order@.len() && i1 != i2 ==> (#[trigger] order@[
                    i1
                ]) != (#[trigger] order@[i2]),
            forall|v: int| 0 <= v < n ==> (placed@[v] <==> #[trigger] appears(order@, v)),
            forall|k: int, b: int|
                0 <= k < edges@.len() && 0 <= b < order@.len() && (#[trigger] order@[b]) == (
                #[trigger] edges@[k]).1 ==> exists|a: int|
                    0 <= a < b && order@[a] == edges@[k].0,
        decreases n - order@.len(),
    {
        let mut found: usize = n;
        let mut v: usize = 0;
        while v < n
            invariant
                placed@.len() == n,
                found <= n,
                v <= n,
                forall|k: int|
                    0 <= k < edges@.len() ==> (#[trigger] edges@[k]).0 < n && edges@[k].1 < n,
                found == n ==> forall|w: int|
                    0 <= w < v ==> placed@[w] || spec_blocked(edges@, placed@, w),
                found < n ==> forall|w: int|
                    0 <= w < found ==> placed@[w] || spec_blocked(edges@, placed@, w),
                found < n ==> !placed@[found as int] && !spec_blocked(
                    edges@,
                    placed@,
                    found as int,
                ),
            decreases n - v,
        {
            if found == n && !placed[v] {
                if !has_unplaced_pred(v, edges, &placed) {
                    found = v;
                }
            }
            v = v + 1;
        }
        if found == n {
            proof {
                assert(exists|w: int| 0 <= w < n && !placed@[w]) by {
                    if forall|w: int| 0 <= w < n ==> #[trigger] placed@[w] {
                        lemma_count_true_all_true(placed@);
                    }
                }
                lemma_blocked_set_exists(n as int, edges@, placed@, order@.len() as int);
            }
            return Err(ScheduleError::CyclicDependency);
        }
        let ghost pre_placed = placed@;
        let ghost pre_order = order@;
        placed.set(found, true);
        order.push(found);
        proof {
            lemma_find_ready_eq(n as int, edges@, pre_placed, found as int, 0);
            assert(order@ =~= spec_topo_state(n as int, edges@, order@.len() as int).0);
            assert(placed@ =~= spec_topo_state(n as int, edges@, order@.len() as int).1);
            lemma_count_true_update(pre_placed, found as int);
            assert(!appears(pre_order, found as int));
            assert forall|i1: int, i2: int|
                0 <= i1 < order@.len() && 0 <= i2 < order@.len() && i1 != i2 implies (
            #[trigger] order@[i1]) != (#[trigger] order@[i2]) by {
                if i1 == order@.len() - 1 && i2 < i1 {
                    assert(pre_order[i2] == order@[i2]);
                    assert(order@[i2] != found);
                } else if i2 == order@.len() - 1 && i1 < i2 {
                    assert(pre_order[i1] == order@[i1]);
                    assert(order@[i1] != found);
                }
            }
            assert forall|v: int| 0 <= v < n implies (placed@[v] <==> #[trigger] appears(
                order@,
                v,
            )) by {
                if v == found as int {
                    assert(order@[order@.len() - 1] == found);
                    assert(appears(order@, v));
                } else {
                    if appears(pre_order, v) {
                        let w = choose|w: int|
                            0 <= w < pre_order.len() && (#[trigger] pre_order[w]) == v;
                        assert(order@[w] == v);
                        assert(appears(order@, v));
                    }
                    if appears(order@, v) {
                        let w = choose|w: int|
                            0 <= w < order@.len() && (#[trigger] order@[w]) == v;
                        assert(w < order@.len() - 1);
                        assert(pre_order[w] == v);
                        assert(appears(pre_order, v));
                    }
                }
            }
            assert forall|k: int, b: int|
                0 <= k < edges@.len() && 0 <= b < order@.len() && (#[trigger] order@[b]) == (
                #[trigger] edges@[k]).1 implies exists|a: int|
                0 <= a < b && order@[a] == edges@[k].0 by {
                if b < order@.len() - 1 {
                    assert(pre_order[b] == edges@[k].1);
                    let a = choose|a: int| 0 <= a < b && pre_order[a] == edges@[k].0;
                    assert(order@[a] == edges@[k].0);
                } else {
                    assert(order@[b] == found);
                    assert(!spec_blocked(edges@, pre_placed, found as int));
                    assert(pre_placed[edges@[k].0 as int]);
                    assert(appears(pre_order, edges@[k].0 as int));
                    let a = choose|a: int|
                        0 <= a < pre_order.len() && (#[trigger] pre_order[a]) == edges@[k].0 as int;
                    assert(order@[a] == edges@[k].0);
                }
            }
        }
    }
    proof {
        lemma_count_true_full(placed@);
    }
    Ok(order)
}

/// At the point where no node can be placed, the unplaced nodes form a
/// blocked set.
proof fn lemma_blocked_set_exists(
    n: int,
    edges: Seq<(usize, usize)>,
    placed: Seq<bool>,
    num_placed: int,
)
    requires
        placed.len() == n,
        num_placed < n,
        forall|k: int| 0 <= k < edges.len() ==> (#[trigger] edges[k]).0 < n && edges[k].1 < n,
        forall|w: int| 0 <= w < n ==> placed[w] || spec_blocked(edges, placed, w),
        exists|w: int| 0 <= w < n && !placed[w],
    ensures
        spec_has_blocked_set(n, edges),
{
    let s = Set::new(|v: int| 0 <= v < n && !placed[v]);
    let range = vstd::set_lib::set_int_range(0, n);
    vstd::set_lib::lemma_int_range(0, n);
    assert(s.subset_of(range));
    vstd::set_lib::lemma_len_subset(s, range);
    let w = choose|w: int| 0 <= w < n && !placed[w];
    assert(s.contains(w));
    if s.len() == 0 {
        assert(s =~= Set::empty());
        assert(false);
    }
    assert forall|v: int| s.contains(v) implies exists|k: int|
        0 <= k < edges.len() && (#[trigger] edges[k]).1 == v && s.contains(edges[k].0 as int) by {
        assert(spec_blocked(edges, placed, v));
        let k = choose|k: int|
            0 <= k < edges.len() && (#[trigger] edges[k]).1 == v && !placed[edges[k].0 as int];
        assert(s.contains(edges[k].0 as int));
    }
}

/// Extracts the dependency graph's edges as (source, target) index pairs, in
/// the graph's storage order.
pub fn dep_edge_pairs(dep: &Graph<Task, ()>) -> (r: Vec<(usize, usize)>)
    requires
        dep.wf(),
    ensures
        r@.len() == dep.edge_triples().len(),
        forall|k: int|
            0 <= k < r@.len() ==> (#[trigger] r@[k]).0 == dep.edge_triples()[k].0 && r@[k].1
                == dep.edge_triples()[k].1 && r@[k].0 < dep.node_count() && r@[k].1
                < dep.node_count(),
{
    let mut r: Vec<(usize, usize)> = Vec::new();
    let nodes = dep.iter_nodes();
    let n = nodes.len();
    let mut i: usize = 0;
    while i < n
        invariant
            dep.wf(),
            n == dep.node_count(),
            nodes@.len() == n,
            forall|t: int| 0 <= t < n ==> *#[trigger] nodes@[t] == dep.spec_node(t),
            i <= n,
            r@.len() == dep.edges_up_to(i as int).len(),
            forall|k: int|
                0 <= k < r@.len() ==> (#[trigger] r@[k]).0 == dep.edges_up_to(i as int)[k].0
                    && r@[k].1 == dep.edges_up_to(i as int)[k].1 && r@[k].0 < n && r@[k].1 < n,
        decreases n - i,
    {
        let node = nodes[i];
        let mut j: usize = 0;
        while j < node.edges.len()
            invariant
                dep.wf(),
                n == dep.node_count(),
                i < n,
                *node == dep.spec_node(i as int),
                j <= node.edges@.len(),
                r@.len() == dep.edges_up_to(i as int).len() + j,
                forall|k: int|
                    0 <= k < r@.len() ==> (#[trigger] r@[k]).0 == dep.edges_up_to(
                        i + 1 as int,
                    )[k].0 && r@[k].1 == dep.edges_up_to(i + 1 as int)[k].1 && r@[k].0 < n
                        && r@[k].1 < n,
            decreases node.edges@.len() - j,
        {
            r.push((i, node.edges[j].index.idx));
            j = j + 1;
        }
        i = i + 1;
    }
    proof {
        assert(dep.edges_up_to(n as int) == dep.edge_triples());
    }
    r
}

/// Predicate on a dependency edge: its endpoint tasks are owned by different
/// processors, so executing the target charges communication time.
pub open spec fn cross_pred(owners: Seq<usize>) -> spec_fn((usize, usize)) -> bool {
    |edge: (usize, usize)| owners[edge.0 as int] != owners[edge.1 as int]
}

/// Predicate on a dependency edge: it crosses processors and its target task
/// has already executed (appears in `done`).
spec fn charged_pred(owners: Seq<usize>, done: Seq<usize>) -> spec_fn((usize, usize)) -> bool {
    |edge: (usize, usize)| owners[edge.0 as int] != owners[edge.1 as int] && done.contains(edge.1)
}

/// Predicate on a dependency edge: it crosses processors and ends in task `t`.
spec fn cross_into_pred(owners: Seq<usize>, t: usize) -> spec_fn((usize, usize)) -> bool {
    |edge: (usize, usize)| owners[edge.0 as int] != owners[edge.1 as int] && edge.1 == t
}

/// Predicate that holds of no dependency edge.
spec fn never_pred() -> spec_fn((usize, usize)) -> bool {
    |edge: (usize, usize)| false
}

/// Dependency scan of task `t` on processor `p` over the first `k` edges:
/// the number of cross-processor dependencies found and the latest time at
/// which a scanned dependency lets `t` start (its completion time, plus one
/// communication quantum when it lives on another processor).
pub open spec fn spec_scan(
    edges: Seq<(usize, usize)>,
    owners: Seq<usize>,
    completion: Seq<u64>,
    t: usize,
    k: int,
) -> (int, int)
    decreases k,
{
    if k <= 0 {
        (0, 0)
    } else {
        let prev = spec_scan(edges, owners, completion, t, k - 1);
        let e = edges[k - 1];
        if e.1 == t {
            let cross = owners[e.0 as int] != owners[e.1 as int];
            let cand = completion[e.0 as int] + if cross {
                COMM_TIME as int
            } else {
                0
            };
            (
                prev.0 + if cross {
                    1int
                } else {
                    0int
                },
                if cand > prev.1 {
                    cand
                } else {
                    prev.1
                },
            )
        } else {
            prev
        }
    }
}

/// One simulation step: task `t` charges its owner the communication cost of
/// its cross-processor dependencies, idles until its latest dependency lets
/// it start, computes for one quantum, and records its completion time.
pub open spec fn spec_sim_step(
    edges: Seq<(usize, usize)>,
    owners: Seq<usize>,
    procs: Seq<Processor>,
    completion: Seq<u64>,
    t: usize,
) -> (Seq<Processor>, Seq<u64>) {
    let p = owners[t as int] as int;
    let scan = spec_scan(edges, owners, completion, t, edges.len() as int);
    let pr = procs[p];
    let after_comm = pr.time + COMM_TIME * scan.0;
    let wait = if scan.1 > after_comm {
        scan.1 - after_comm
    } else {
        0
    };
    let end = after_comm + wait + TASK_TIME;
    let pr2 = Processor {
        time: end as u64,
        time_spent_working: (pr.time_spent_working + TASK_TIME) as u64,
        time_spent_communicating: (pr.time_spent_communicating + COMM_TIME * scan.0) as u64,
        time_spent_waiting: (pr.time_spent_waiting + wait) as u64,
    };
    (procs.update(p, pr2), completion.update(t as int, end as u64))
}

/// State after simulating the first `i` tasks of the order, starting from
/// the given processors and all-zero completion times.
pub open spec fn spec_sim(
    order: Seq<usize>,
    edges: Seq<(usize, usize)>,
    owners: Seq<usize>,
    procs0: Seq<Processor>,
    completion0: Seq<u64>,
    i: int,
) -> (Seq<Processor>, Seq<u64>)
    decreases i,
{
    if i <= 0 {
        (procs0, completion0)
    } else {
        let prev = spec_sim(order, edges, owners, procs0, completion0, i - 1);
        spec_sim_step(edges, owners, prev.0, prev.1, order[i - 1])
    }
}

/// All-zero completion times for `n` tasks.
pub open spec fn spec_zero_completion(n: int) -> Seq<u64> {
    Seq::new(n as nat, |v: int| 0u64)
}

/// Simulates one direction's tasks in the given topological order,
/// accumulating compute, communication and idle time onto the processors.
/// Each task adds exactly one compute quantum to its owner and each
/// cross-processor dependency edge exactly one communication quantum to its
/// target's owner; every processor's clock stays within the budget added by
/// this direction.
fn simulate_direction(
    order: &Vec<usize>,
    edges: &Vec<(usize, usize)>,
    owners: &Vec<usize>,
    procs: &mut Vec<Processor>,
)
    requires
        old(procs)@.len() >= 1,
        owners@.len() == order@.len(),
        forall|i: int| 0 <= i < order@.len() ==> (#[trigger] order@[i]) < order@.len(),
        forall|i1: int, i2: int|
            0 <= i1 < order@.len() && 0 <= i2 < order@.len() && i1 != i2 ==> (#[trigger] order@[
                i1
            ]) != (#[trigger] order@[i2]),
        forall|k: int|
            0 <= k < edges@.len() ==> (#[trigger] edges@[k]).0 < order@.len() && edges@[k].1
                < order@.len(),
        forall|v: int| 0 <= v < order@.len() ==> #[trigger] appears(order@, v),
        forall|v: int| 0 <= v < owners@.len() ==> (#[trigger] owners@[v]) < old(procs)@.len(),
        forall|p: int| 0 <= p < old(procs)@.len() ==> (#[trigger] old(procs)@[p]).wf(),
        spec_max_time(old(procs)@) + order@.len() * (TASK_TIME + COMM_TIME + COMM_TIME
            * edges@.len()) <= u64::MAX,
    ensures
        final(procs)@.len() == old(procs)@.len(),
        forall|p: int| 0 <= p < final(procs)@.len() ==> (#[trigger] final(procs)@[p]).wf(),
        forall|p: int|
            0 <= p < final(procs)@.len() ==> (#[trigger] final(procs)@[p]).time >= old(
                procs,
            )@[p].time,
        spec_sum_working(final(procs)@) == spec_sum_working(old(procs)@) + TASK_TIME
            * order@.len(),
        spec_sum_comm(final(procs)@) == spec_sum_comm(old(procs)@) + COMM_TIME * edges@.filter(
            cross_pred(owners@),
        ).len(),
        edges@.filter(cross_pred(owners@)).len() == 0 ==> forall|p: int|
            0 <= p < final(procs)@.len() ==> (#[trigger] final(procs)@[p]).time_spent_waiting
                == old(procs)@[p].time_spent_waiting,
        final(procs)@ == spec_sim(
            order@,
            edges@,
            owners@,
            old(procs)@,
            spec_zero_completion(order@.len() as int),
            order@.len() as int,
        ).0,
        forall|p: int|
            0 <= p < final(procs)@.len() ==> (#[trigger] final(procs)@[p]).time
                <= spec_max_time(old(procs)@) + order@.len() * (TASK_TIME + COMM_TIME + COMM_TIME
                * edges@.len()),
{
    let n = order.len();
    let e = edges.len();
    let ghost sm = spec_max_time(old(procs)@);
    let ghost x = (TASK_TIME + COMM_TIME + COMM_TIME * edges@.len()) as int;
    let ghost mut lb: int = sm;
    let mut completion: Vec<u64> = Vec::new();
    let mut j: usize = 0;
    while j < n
        invariant
            j <= n,
            completion@.len() == j,
            forall|t: int| 0 <= t < j ==> (#[trigger] completion@[t]) == 0,
        decreases n - j,
    {
        completion.push(0);
        j = j + 1;
    }
    proof {
        lemma_max_time_nonneg(procs@);
        assert forall|p: int| 0 <= p < procs@.len() implies (#[trigger] procs@[p]).time <= sm by {
            lemma_max_time_ge(procs@, p);
        }
        edges@.lemma_all_neg_filter_empty(charged_pred(owners@, order@.take(0)));
        assert(completion@ =~= spec_zero_completion(n as int));
    }
    let mut i: usize = 0;
    while i < n
        invariant
            n == order@.len(),
            e == edges@.len(),
            procs@.len() == old(procs)@.len() >= 1,
            owners@.len() == n,
            completion@.len() == n,
            i <= n,
            lb == sm + i * x,
            x == TASK_TIME + COMM_TIME + COMM_TIME * (e as int),
            sm == spec_max_time(old(procs)@),
            sm >= 0,
            sm + n * x <= u64::MAX,
            forall|t: int| 0 <= t < n ==> (#[trigger] order@[t]) < n,
            forall|i1: int, i2: int|
                0 <= i1 < n && 0 <= i2 < n && i1 != i2 ==> (#[trigger] order@[i1]) != (
                #[trigger] order@[i2]),
            forall|k: int|
                0 <= k < e ==> (#[trigger] edges@[k]).0 < n && edges@[k].1 < n,
            forall|v: int| 0 <= v < n ==> (#[trigger] owners@[v]) < procs@.len(),
            forall|p: int| 0 <= p < procs@.len() ==> (#[trigger] procs@[p]).wf(),
            forall|p: int|
                0 <= p < procs@.len() ==> (#[trigger] procs@[p]).time >= old(procs)@[p].time,
            forall|p: int| 0 <= p < procs@.len() ==> (#[trigger] procs@[p]).time <= lb,
            forall|v: int| 0 <= v < n ==> (#[trigger] completion@[v]) <= lb,
            forall|v: int|
                0 <= v < n ==> (#[trigger] completion@[v]) <= procs@[owners@[v] as int].time,
            edges@.filter(cross_pred(owners@)).len() == 0 ==> forall|p: int|
                0 <= p < procs@.len() ==> (#[trigger] procs@[p]).time_spent_waiting == old(
                    procs,
                )@[p].time_spent_waiting,
            spec_sum_working(procs@) == spec_sum_working(old(procs)@) + TASK_TIME * i,
            spec_sum_comm(procs@) == spec_sum_comm(old(procs)@) + COMM_TIME * edges@.filter(
                charged_pred(owners@, order@.take(i as int)),
            ).len(),
            procs@ == spec_sim(
                order@,
                edges@,
                owners@,
                old(procs)@,
                spec_zero_completion(n as int),
                i as int,
            ).0,
            completion@ == spec_sim(
                order@,
                edges@,
                owners@,
                old(procs)@,
                spec_zero_completion(n as int),
                i as int,
            ).1,
        decreases n - i,
    {
        proof {
            assert((i + 1) * x == i * x + x) by (nonlinear_arith);
            assert((i + 1) * x <= n * x) by (nonlinear_arith)
                requires
                    0 <= i + 1 <= n,
                    x >= 0,
            ;
        }
        let t = order[i];
        let p = owners[t];
        let mut pr = procs[p];
        let ghost pr0 = pr;
        let ghost mut cc: int = 0;
        proof {
            edges@.take(0).lemma_all_neg_filter_empty(cross_into_pred(owners@, t));
        }
        let mut ready: u64 = 0;
        let mut k: usize = 0;
        while k < e
            invariant
                cc == edges@.take(k as int).filter(cross_into_pred(owners@, t)).len(),
                pr.time_spent_communicating == pr0.time_spent_communicating + COMM_TIME * cc,
                pr.time == pr0.time + COMM_TIME * cc,
                cc == spec_scan(edges@, owners@, completion@, t, k as int).0,
                ready as int == spec_scan(edges@, owners@, completion@, t, k as int).1,
                p == owners@[t as int],
                n == order@.len(),
                e == edges@.len(),
                procs@.len() == old(procs)@.len() >= 1,
                completion@.len() == n,
                t < n,
                p < procs@.len(),
                k <= e,
                x == TASK_TIME + COMM_TIME + COMM_TIME * (e as int),
                lb >= 0,
                lb + x <= u64::MAX,
                owners@.len() == n,
                forall|k2: int|
                    0 <= k2 < e ==> (#[trigger] edges@[k2]).0 < n && edges@[k2].1 < n,
                forall|v: int| 0 <= v < n ==> (#[trigger] owners@[v]) < procs@.len(),
                forall|v: int| 0 <= v < n ==> (#[trigger] completion@[v]) <= lb,
                forall|v: int|
                    0 <= v < n ==> (#[trigger] completion@[v]) <= procs@[owners@[v] as int].time,
                edges@.filter(cross_pred(owners@)).len() == 0 ==> ready <= pr0.time
                    && pr.time == pr0.time && pr.time_spent_waiting
                    == pr0.time_spent_waiting,
                pr.wf(),
                pr.time_spent_working == pr0.time_spent_working,
                pr.time >= pr0.time,
                pr0 == procs@[p as int],
                pr0.time <= lb,
                pr.time <= lb + COMM_TIME * k,
                COMM_TIME * k <= COMM_TIME * (e as int),
                ready <= lb + COMM_TIME,
            decreases e - k,
        {
            proof {
                assert(COMM_TIME * (k + 1) == COMM_TIME * k + COMM_TIME) by (nonlinear_arith);
                assert(COMM_TIME * (k + 1) <= COMM_TIME * (e as int)) by (nonlinear_arith)
                    requires
                        0 <= k + 1 <= e,
                ;
            }
            let edge = edges[k];
            proof {
                assert(edges@.take(k + 1 as int) =~= edges@.take(k as int).push(edge));
                lemma_filter_push(edges@.take(k as int), cross_into_pred(owners@, t), edge);
                if edges@.filter(cross_pred(owners@)).len() == 0 {
                    assert(!cross_pred(owners@)(edge)) by {
                        if cross_pred(owners@)(edges@[k as int]) {
                            edges@.lemma_filter_contains(cross_pred(owners@), k as int);
                            assert(edges@.filter(cross_pred(owners@)).contains(
                                edges@[k as int],
                            ));
                        }
                    }
                }
            }
            if edge.1 == t {
                let u = edge.0;
                let mut c = completion[u];
                if owners[u] != p {
                    pr.time_spent_communicating = pr.time_spent_communicating + COMM_TIME;
                    pr.time = pr.time + COMM_TIME;
                    c = c + COMM_TIME;
                    proof {
                        cc = cc + 1;
                    }
                }
                if c > ready {
                    ready = c;
                }
            }
            proof {
                let pred = cross_into_pred(owners@, t);
                if edge.1 == t && owners@[edge.0 as int] != owners@[t as int] {
                    assert(pred(edge));
                    assert(edges@.take(k + 1 as int).filter(pred) == edges@.take(
                        k as int,
                    ).filter(pred).push(edge));
                } else {
                    assert(!pred(edge));
                    assert(edges@.take(k + 1 as int).filter(pred) == edges@.take(k as int).filter(
                        pred,
                    ));
                }
            }
            k = k + 1;
        }
        proof {
            assert(edges@.take(e as int) =~= edges@);
        }
        if ready > pr.time {
            pr.time_spent_waiting = pr.time_spent_waiting + (ready - pr.time);
            pr.time = ready;
        }
        pr.time = pr.time + TASK_TIME;
        pr.time_spent_working = pr.time_spent_working + TASK_TIME;
        let ghost pre_completion = completion@;
        let cr = &mut completion[t];
        *cr = pr.time;
        let ghost pre_procs = procs@;
        let prm = &mut procs[p];
        *prm = pr;
        proof {
            broadcast use vstd::seq_lib::group_to_multiset_ensures;

            let ghost st_next = spec_sim(
                order@,
                edges@,
                owners@,
                old(procs)@,
                spec_zero_completion(n as int),
                i + 1 as int,
            );
            assert(st_next == spec_sim_step(edges@, owners@, pre_procs, pre_completion, t));
            assert(spec_scan(edges@, owners@, pre_completion, t, e as int).0 == cc);
            assert(procs@ =~= st_next.0);
            assert(completion@ =~= st_next.1);
            assert forall|w: int| 0 <= w < n implies (#[trigger] completion@[w]) <= procs@[
                owners@[w] as int
            ].time by {
                if w != t as int {
                    assert(completion@[w] == pre_completion[w]);
                    if owners@[w] as int != p as int {
                        assert(procs@[owners@[w] as int] == pre_procs[owners@[w] as int]);
                    }
                }
            }
            lemma_sum_working_update(pre_procs, p as int, pr);
            lemma_sum_comm_update(pre_procs, p as int, pr);
            assert(TASK_TIME * (i + 1) == TASK_TIME * i + TASK_TIME) by (nonlinear_arith);
            let done = order@.take(i as int);
            let done1 = order@.take(i + 1 as int);
            assert(done1 =~= done.push(t));
            assert forall|j: int| 0 <= j < edges@.len() implies !(charged_pred(owners@, done)(
                #[trigger] edges@[j],
            ) && cross_into_pred(owners@, t)(edges@[j])) by {
                let y = edges@[j];
                if done.contains(y.1) && y.1 == t {
                    let a = choose|a: int| 0 <= a < done.len() && done[a] == y.1;
                    assert(order@[a] == t);
                    assert(order@[i as int] == t);
                }
            }
            assert forall|j: int| 0 <= j < edges@.len() implies (charged_pred(owners@, done1)(
                #[trigger] edges@[j],
            ) <==> charged_pred(owners@, done)(edges@[j]) || cross_into_pred(owners@, t)(
                edges@[j],
            )) by {
                let y = edges@[j];
                if done1.contains(y.1) {
                    let a = choose|a: int| 0 <= a < done1.len() && done1[a] == y.1;
                    if a < done.len() {
                        assert(done[a] == y.1);
                        assert(done.contains(y.1));
                    } else {
                        assert(y.1 == t);
                    }
                }
                if done.contains(y.1) {
                    let a = choose|a: int| 0 <= a < done.len() && done[a] == y.1;
                    assert(done1[a] == y.1);
                    assert(done1.contains(y.1));
                }
                if y.1 == t {
                    assert(done1[done1.len() - 1] == y.1);
                    assert(done1.contains(y.1));
                }
            }
            crate::graph::lemma_filter_split_multiset(
                edges@,
                charged_pred(owners@, done),
                cross_into_pred(owners@, t),
                charged_pred(owners@, done1),
            );
            vstd::multiset::axiom_len_add(
                edges@.filter(charged_pred(owners@, done)).to_multiset(),
                edges@.filter(cross_into_pred(owners@, t)).to_multiset(),
            );
            assert(edges@.filter(charged_pred(owners@, done1)).len() == edges@.filter(
                charged_pred(owners@, done),
            ).len() + edges@.filter(cross_into_pred(owners@, t)).len());
            lb = lb + x;
        }
        i = i + 1;
    }
    proof {
        broadcast use vstd::seq_lib::group_to_multiset_ensures;

        assert(lb == sm + n * x);
        let done = order@.take(n as int);
        assert(done =~= order@);
        assert forall|j: int| 0 <= j < edges@.len() implies !(charged_pred(owners@, order@)(
            #[trigger] edges@[j],
        ) && never_pred()(edges@[j])) by {}
        assert forall|j: int| 0 <= j < edges@.len() implies (cross_pred(owners@)(
            #[trigger] edges@[j],
        ) <==> charged_pred(owners@, order@)(edges@[j]) || never_pred()(edges@[j])) by {
            let y = edges@[j];
            assert(appears(order@, y.1 as int));
            let a = choose|a: int| 0 <= a < order@.len() && (#[trigger] order@[a]) == y.1 as int;
            assert(order@[a] == y.1);
            assert(order@.contains(y.1));
        }
        crate::graph::lemma_filter_split_multiset(
            edges@,
            charged_pred(owners@, order@),
            never_pred(),
            cross_pred(owners@),
        );
        edges@.lemma_all_neg_filter_empty(never_pred());
        vstd::multiset::axiom_len_add(
            edges@.filter(charged_pred(owners@, order@)).to_multiset(),
            edges@.filter(never_pred()).to_multiset(),
        );
        assert(edges@.filter(cross_pred(owners@)).len() == edges@.filter(
            charged_pred(owners@, order@),
        ).len());
    }
}

/// Per-direction clock budget of a sweep: what one direction can add to any
/// processor's clock, with `n` tasks and at most `e` dependency edges.
pub open spec fn spec_direction_budget(n: int, e: int) -> int {
    n * (TASK_TIME + COMM_TIME + COMM_TIME * e)
}

/// Maps a downwind mesh out-edge pair of node `i` to a dependency edge pair.
pub open spec fn dep_pair_of(i: int) -> spec_fn((usize, Face)) -> (usize, usize) {
    |p: (usize, Face)| (i as usize, p.0)
}

/// Dependency edge pairs contributed by the first `k` mesh nodes for
/// direction `d`: each downwind out-edge of node `i` yields the pair
/// (i, target), in storage order.
pub open spec fn spec_dep_pairs_up_to(grid: Grid, d: Direction, k: int) -> Seq<(usize, usize)>
    decreases k,
{
    if k <= 0 {
        Seq::empty()
    } else {
        spec_dep_pairs_up_to(grid, d, k - 1) + grid.data.node_out_edges(k - 1).filter(
            downwind_pair(d),
        ).map_values(dep_pair_of(k - 1))
    }
}

/// All dependency edge pairs of the mesh for direction `d`: what the task
/// dependency graph of that direction holds.
pub open spec fn spec_dep_pairs(grid: Grid, d: Direction) -> Seq<(usize, usize)> {
    spec_dep_pairs_up_to(grid, d, grid.cells().len() as int)
}

/// Processor index of each cell, in storage order.
pub open spec fn spec_owner_seq(grid: Grid) -> Seq<usize> {
    grid.cells().map_values(|c: Cell| c.processor_num)
}

/// Number of dependency edges of direction `d` whose endpoint tasks live on
/// different processors: each costs one communication quantum per sweep.
pub open spec fn spec_cross_count(grid: Grid, d: Direction) -> int {
    spec_dep_pairs(grid, d).filter(cross_pred(spec_owner_seq(grid))).len() as int
}

/// Total cross-processor dependency-edge count over the first `k` directions.
pub open spec fn spec_total_cross_up_to(grid: Grid, dirs: Seq<Direction>, k: int) -> int
    decreases k,
{
    if k <= 0 {
        0
    } else {
        spec_total_cross_up_to(grid, dirs, k - 1) + spec_cross_count(grid, dirs[k - 1])
    }
}

/// Projection of a cell's center onto the sweep direction.
pub open spec fn spec_projection(grid: Grid, d: Direction, v: int) -> int {
    grid.cells()[v].center.spec_dot(d.vector)
}

/// Every dependency edge pair among the first `k` nodes comes from a downwind
/// mesh edge; the returned witness locates it.
proof fn lemma_dep_pairs_membership(grid: Grid, d: Direction, k: int, idx: int) -> (w: (int, int))
    requires
        0 <= k <= grid.cells().len(),
        0 <= idx < spec_dep_pairs_up_to(grid, d, k).len(),
    ensures
        0 <= w.0 < k,
        0 <= w.1 < grid.data.node_out_edges(w.0).filter(downwind_pair(d)).len(),
        spec_dep_pairs_up_to(grid, d, k)[idx] == (w.0 as usize, grid.data.node_out_edges(
            w.0,
        ).filter(downwind_pair(d))[w.1].0),
    decreases k,
{
    let pre = spec_dep_pairs_up_to(grid, d, k - 1);
    if idx < pre.len() {
        lemma_dep_pairs_membership(grid, d, k - 1, idx)
    } else {
        (k - 1, idx - pre.len())
    }
}

/// A downwind mesh edge strictly raises the center projection along the
/// sweep direction: the upwind cell projects below the downwind cell.
proof fn lemma_downwind_raises_projection(grid: Grid, d: Direction, i: int, j: int)
    requires
        grid.wf(),
        d.vector.in_range(),
        0 <= i < grid.cells().len(),
        0 <= j < grid.data.node_out_edges(i).filter(downwind_pair(d)).len(),
    ensures
        grid.data.node_out_edges(i).filter(downwind_pair(d))[j].0 < grid.cells().len(),
        spec_projection(grid, d, i) < spec_projection(
            grid,
            d,
            grid.data.node_out_edges(i).filter(downwind_pair(d))[j].0 as int,
        ),
{
    let out = grid.data.node_out_edges(i);
    let p = out.filter(downwind_pair(d))[j];
    out.lemma_filter_pred(downwind_pair(d), j);
    assert(out.filter(downwind_pair(d)).contains(p));
    out.lemma_filter_contains_rev(downwind_pair(d), p);
    let t = choose|t: int| 0 <= t < out.len() && out[t] == p;
    assert(grid.data.node_out_edges(i)[t] == p);
    let ci = grid.cells()[i].center;
    let ct = grid.cells()[p.0 as int].center;
    assert(p.1 == crate::grid::spec_face_between(grid.cells()[i], grid.cells()[p.0 as int]));
    assert(p.1.normal.x == ci.x - ct.x && p.1.normal.y == ci.y - ct.y && p.1.normal.z == ci.z
        - ct.z);
    assert(p.1.normal.spec_dot(d.vector) == ci.spec_dot(d.vector) - ct.spec_dot(d.vector))
        by (nonlinear_arith)
        requires
            p.1.normal.x == ci.x - ct.x,
            p.1.normal.y == ci.y - ct.y,
            p.1.normal.z == ci.z - ct.z,
    ;
}

/// In this exact-arithmetic model every dependency graph is acyclic, for any
/// mesh and any direction: a dependency edge strictly raises the center
/// projection along the direction, so no blocked set (and hence no cycle)
/// can exist. Combined with the scheduler's contracts, a sweep over a
/// well-formed mesh always finds an execution order.
pub proof fn lemma_dependency_graph_acyclic(grid: Grid, d: Direction)
    requires
        grid.wf(),
        d.vector.in_range(),
    ensures
        !spec_has_blocked_set(grid.cells().len() as int, spec_dep_pairs(grid, d)),
{
    let n = grid.cells().len() as int;
    let pairs = spec_dep_pairs(grid, d);
    if spec_has_blocked_set(n, pairs) {
        let s = choose|s: Set<int>|
            #![auto]
            s.finite() && s.len() > 0 && (forall|v: int| s.contains(v) ==> 0 <= v < n) && (forall|
                v: int,
            |
                s.contains(v) ==> exists|k: int|
                    0 <= k < pairs.len() && (#[trigger] pairs[k]).1 == v && s.contains(
                        pairs[k].0 as int,
                    ));
        let m = lemma_min_projection(grid, d, s);
        let k = choose|k: int|
            0 <= k < pairs.len() && (#[trigger] pairs[k]).1 == m && s.contains(pairs[k].0 as int);
        let w = lemma_dep_pairs_membership(grid, d, n, k);
        assert(pairs[k].0 == w.0 as usize);
        lemma_downwind_raises_projection(grid, d, w.0, w.1);
        assert(spec_projection(grid, d, w.0) < spec_projection(grid, d, m));
        assert(s.contains(w.0 as int));
        assert(spec_projection(grid, d, m) <= spec_projection(grid, d, w.0));
        assert(false);
    }
}

/// A finite, non-empty set of cell positions holds one whose center projects
/// no higher than any other member's along the direction.
proof fn lemma_min_projection(grid: Grid, d: Direction, s: Set<int>) -> (m: int)
    requires
        s.finite(),
        s.len() > 0,
    ensures
        s.contains(m),
        forall|v: int| s.contains(v) ==> spec_projection(grid, d, m) <= #[trigger] spec_projection(
            grid,
            d,
            v,
        ),
    decreases s.len(),
{
    if !(exists|x: int| s.contains(x)) {
        assert(s =~= Set::empty());
        vstd::set_lib::lemma_set_empty_equivalency_len(s);
    }
    let x = choose|x: int| s.contains(x);
    let s2 = s.remove(x);
    if s2.len() == 0 {
        assert forall|v: int| s.contains(v) implies spec_projection(grid, d, x)
            <= #[trigger] spec_projection(grid, d, v) by {
            if v != x {
                assert(s2.contains(v));
                vstd::set_lib::lemma_set_empty_equivalency_len(s2);
            }
        }
        x
    } else {
        let m2 = lemma_min_projection(grid, d, s2);
        let m = if spec_projection(grid, d, x) <= spec_projection(grid, d, m2) {
            x
        } else {
            m2
        };
        assert forall|v: int| s.contains(v) implies spec_projection(grid, d, m)
            <= #[trigger] spec_projection(grid, d, v) by {
            if v != x {
                assert(s2.contains(v));
            }
        }
        m
    }
}

/// The processors after sweeping the first `d` directions of a run: for each
/// direction, the scheduler's order over its dependency pairs, simulated from
/// the state the previous directions left. The whole run is a function of the
/// mesh, the directions and the processor count alone: equal inputs always
/// yield equal results.
pub open spec fn spec_run_procs(
    grid: Grid,
    dirs: Seq<Direction>,
    num_processors: int,
    d: int,
) -> Seq<Processor>
    decreases d,
{
    if d <= 0 {
        Seq::new(
            num_processors as nat,
            |q: int|
                Processor {
                    time: 0,
                    time_spent_working: 0,
                    time_spent_communicating: 0,
                    time_spent_waiting: 0,
                },
        )
    } else {
        let prev = spec_run_procs(grid, dirs, num_processors, d - 1);
        let n = grid.cells().len() as int;
        let pairs = spec_dep_pairs(grid, dirs[d - 1]);
        let order = spec_topo_state(n, pairs, n).0;
        spec_sim(
            order,
            pairs,
            spec_owner_seq(grid),
            prev,
            spec_zero_completion(n),
            order.len() as int,
        ).0
    }
}

/// Cross-processor counts never go negative.
proof fn lemma_total_cross_nonneg(grid: Grid, dirs: Seq<Direction>, k: int)
    ensures
        spec_total_cross_up_to(grid, dirs, k) >= 0,
    decreases k,
{
    if k > 0 {
        lemma_total_cross_nonneg(grid, dirs, k - 1);
    }
}

/// A run without any cross-processor dependency edge has none in any single
/// direction either.
proof fn lemma_total_cross_zero(grid: Grid, dirs: Seq<Direction>, k: int)
    requires
        0 <= k,
        spec_total_cross_up_to(grid, dirs, k) == 0,
    ensures
        forall|d: int| 0 <= d < k ==> #[trigger] spec_cross_count(grid, dirs[d]) == 0,
    decreases k,
{
    if k > 0 {
        lemma_total_cross_nonneg(grid, dirs, k - 1);
        lemma_total_cross_zero(grid, dirs, k - 1);
    }
}

/// Processors without idle time sum to none.
proof fn lemma_sum_wait_zero(procs: Seq<Processor>)
    requires
        forall|p: int| 0 <= p < procs.len() ==> (#[trigger] procs[p]).time_spent_waiting == 0,
    ensures
        spec_sum_wait(procs) == 0,
    decreases procs.len(),
{
    if procs.len() > 0 {
        lemma_sum_wait_zero(procs.drop_last());
    }
}

/// The extracted edge pairs of a dependency graph built for `d` are exactly
/// `spec_dep_pairs` of the mesh and the direction.
proof fn lemma_dep_pairs_match(grid: Grid, d: Direction, dep: Graph<Task, ()>, k: int)
    requires
        dep.node_count() == grid.cells().len(),
        forall|i: int|
            0 <= i < grid.cells().len() ==> #[trigger] dep.node_out_edges(i)
                == grid.data.node_out_edges(i).filter(downwind_pair(d)).map_values(pair_unit()),
        0 <= k <= grid.cells().len(),
    ensures
        spec_dep_pairs_up_to(grid, d, k).len() == dep.edges_up_to(k).len(),
        forall|j: int|
            0 <= j < dep.edges_up_to(k).len() ==> (#[trigger] spec_dep_pairs_up_to(
                grid,
                d,
                k,
            )[j]).0 == dep.edges_up_to(k)[j].0 && spec_dep_pairs_up_to(grid, d, k)[j].1
                == dep.edges_up_to(k)[j].1,
    decreases k,
{
    if k > 0 {
        lemma_dep_pairs_match(grid, d, dep, k - 1);
        let filtered = grid.data.node_out_edges(k - 1).filter(downwind_pair(d));
        assert(dep.node_out_edges(k - 1) == filtered.map_values(pair_unit()));
        assert(dep.node_out_edges(k - 1).len() == dep.node_triples(k - 1).len());
        assert forall|j: int| 0 <= j < filtered.len() implies (#[trigger] dep.node_triples(
            k - 1,
        )[j]).0 == filtered.map_values(dep_pair_of(k - 1))[j].0 && dep.node_triples(k - 1)[j].1
            == filtered.map_values(dep_pair_of(k - 1))[j].1 by {
            assert(dep.node_out_edges(k - 1)[j] == pair_unit()(filtered[j]));
        }
    }
}

/// The sweep scheduler: drives every direction's dependency graph through a
/// topological order and a simulated execution over the assigned processors.
pub struct Sweep<'a> {
    pub grid: &'a Grid,
    pub directions: &'a Vec<Direction>,
    pub num_processors: usize,
}

impl<'a> Sweep<'a> {
    /// The mesh is well-formed, every direction vector is in range, and every
    /// cell's processor index falls under the processor count; the clock
    /// budget of the whole run fits the machine's arithmetic.
    pub open spec fn wf(self) -> bool {
        &&& self.grid.wf()
        &&& self.num_processors >= 1
        &&& self.grid.cells().len() >= 1
        &&& forall|d: int|
            0 <= d < self.directions@.len() ==> (#[trigger] self.directions@[d]).vector.in_range()
        &&& forall|i: int|
            0 <= i < self.grid.cells().len() ==> (#[trigger] self.grid.cells()[i]).processor_num
                < self.num_processors
        &&& self.directions@.len() * spec_direction_budget(
            self.grid.cells().len() as int,
            self.grid.data.edge_triples().len() as int,
        ) <= u64::MAX
        &&& self.num_processors * (self.directions@.len() * spec_direction_budget(
            self.grid.cells().len() as int,
            self.grid.data.edge_triples().len() as int,
        )) <= u64::MAX
    }

    pub fn new(grid: &'a Grid, directions: &'a Vec<Direction>, num_processors: usize) -> (s: Sweep<
        'a,
    >)
        ensures
            s.grid == grid,
            s.directions == directions,
            s.num_processors == num_processors,
    {
        Sweep { grid, directions, num_processors }
    }

    /// Simulates every direction and returns the processors with their
    /// accumulated compute, communication and idle times. The summed compute
    /// time is exactly one task quantum per cell per direction, the summed
    /// communication time exactly one quantum per cross-processor dependency
    /// edge over all directions (in particular zero, with zero idle time,
    /// when no dependency crosses processors), and each clock stays within
    /// the run's budget. Fails exactly on a direction whose dependency graph
    /// admits no execution order, with the blocked set as certificate.
    pub fn run_processors(&self) -> (r: Result<Vec<Processor>, ScheduleError>)
        requires
            self.wf(),
        ensures
            r is Ok ==> r.unwrap()@ == spec_run_procs(
                *self.grid,
                self.directions@,
                self.num_processors as int,
                self.directions@.len() as int,
            ),
            r is Ok ==> {
                let procs = r.unwrap()@;
                &&& procs.len() == self.num_processors
                &&& forall|p: int| 0 <= p < procs.len() ==> (#[trigger] procs[p]).wf()
                &&& spec_sum_working(procs) == TASK_TIME * self.grid.cells().len()
                    * self.directions@.len()
                &&& spec_sum_comm(procs) == COMM_TIME * spec_total_cross_up_to(
                    *self.grid,
                    self.directions@,
                    self.directions@.len() as int,
                )
                &&& (spec_total_cross_up_to(
                    *self.grid,
                    self.directions@,
                    self.directions@.len() as int,
                ) == 0 ==> spec_sum_wait(procs) == 0)
                &&& forall|p: int|
                    0 <= p < procs.len() ==> (#[trigger] procs[p]).time <= self.directions@.len()
                        * spec_direction_budget(
                        self.grid.cells().len() as int,
                        self.grid.data.edge_triples().len() as int,
                    )
            },
            r is Err ==> exists|d: int|
                0 <= d < self.directions@.len() && spec_has_blocked_set(
                    self.grid.cells().len() as int,
                    spec_dep_pairs(*self.grid, #[trigger] self.directions@[d]),
                ),
            (forall|d: int|
                0 <= d < self.directions@.len() ==> !spec_has_blocked_set(
                    self.grid.cells().len() as int,
                    spec_dep_pairs(*self.grid, #[trigger] self.directions@[d]),
                )) ==> r is Ok,
    {
        let n = self.grid.len();
        let ghost em = self.grid.data.edge_triples().len() as int;
        let ghost xb = spec_direction_budget(n as int, em);
        let mut owners: Vec<usize> = Vec::new();
        let cells = self.grid.iter();
        let mut v: usize = 0;
        while v < n
            invariant
                n == self.grid.cells().len(),
                cells@.len() == n,
                forall|t: int| 0 <= t < n ==> *#[trigger] cells@[t] == self.grid.cells()[t],
                forall|t: int|
                    0 <= t < n ==> (#[trigger] self.grid.cells()[t]).processor_num
                        < self.num_processors,
                v <= n,
                owners@.len() == v,
                forall|t: int|
                    0 <= t < v ==> (#[trigger] owners@[t]) == self.grid.cells()[t].processor_num,
            decreases n - v,
        {
            owners.push(cells[v].processor_num);
            v = v + 1;
        }
        let mut procs: Vec<Processor> = Vec::new();
        let mut p: usize = 0;
        while p < self.num_processors
            invariant
                p <= self.num_processors,
                procs@.len() == p,
                forall|t: int|
                    0 <= t < p ==> (#[trigger] procs@[t]) == (Processor {
                        time: 0,
                        time_spent_working: 0,
                        time_spent_communicating: 0,
                        time_spent_waiting: 0,
                    }),
            decreases self.num_processors - p,
        {
            procs.push(Processor::new());
            p = p + 1;
        }
        proof {
            lemma_sum_working_zero(procs@);
            lemma_sum_comm_zero(procs@);
            lemma_max_time_bound(procs@, 0);
            lemma_max_time_nonneg(procs@);
            assert(spec_direction_budget(n as int, em) >= 0) by (nonlinear_arith)
                requires
                    n >= 0,
                    em >= 0,
            ;
            assert(owners@ =~= spec_owner_seq(*self.grid));
            assert(procs@ =~= spec_run_procs(
                *self.grid,
                self.directions@,
                self.num_processors as int,
                0,
            ));
        }
        let mut d: usize = 0;
        while d < self.directions.len()
            invariant
                self.wf(),
                n == self.grid.cells().len(),
                em == self.grid.data.edge_triples().len() as int,
                xb == spec_direction_budget(n as int, em),
                xb >= 0,
                owners@.len() == n,
                forall|t: int| 0 <= t < n ==> (#[trigger] owners@[t]) < self.num_processors,
                d <= self.directions@.len(),
                procs@.len() == self.num_processors,
                forall|p: int| 0 <= p < procs@.len() ==> (#[trigger] procs@[p]).wf(),
                spec_sum_working(procs@) == TASK_TIME * n * d,
                spec_sum_comm(procs@) == COMM_TIME * spec_total_cross_up_to(
                    *self.grid,
                    self.directions@,
                    d as int,
                ),
                spec_total_cross_up_to(
                    *self.grid,
                    self.directions@,
                    self.directions@.len() as int,
                ) == 0 ==> forall|p: int|
                    0 <= p < procs@.len() ==> (#[trigger] procs@[p]).time_spent_waiting == 0,
                owners@ == spec_owner_seq(*self.grid),
                procs@ == spec_run_procs(
                    *self.grid,
                    self.directions@,
                    self.num_processors as int,
                    d as int,
                ),
                forall|p: int| 0 <= p < procs@.len() ==> (#[trigger] procs@[p]).time <= d * xb,
                spec_max_time(procs@) <= d * xb,
            decreases self.directions@.len() - d,
        {
            let direction = self.directions[d];
            let dep = self.grid.get_dependency_graph(&direction);
            let edges = dep_edge_pairs(&dep);
            proof {
                assert forall|i: int| 0 <= i < n implies (#[trigger] dep.nodes@[i]).edges@.len()
                    <= self.grid.data.nodes@[i].edges@.len() by {
                    assert(dep.node_out_edges(i).len() <= self.grid.data.node_out_edges(i).len())
                        by {
                        self.grid.data.node_out_edges(i).lemma_filter_len(downwind_pair(direction));
                    }
                }
                crate::graph::lemma_edges_up_to_len_le(dep, self.grid.data, n as int);
                assert(edges@.len() <= em);
                assert((d + 1) * xb == d * xb + xb) by (nonlinear_arith);
                assert((d + 1) * xb <= self.directions@.len() * xb) by (nonlinear_arith)
                    requires
                        0 <= d + 1 <= self.directions@.len(),
                        xb >= 0,
                ;
                assert(n * (TASK_TIME + COMM_TIME + COMM_TIME * (edges@.len() as int)) <= n * (
                TASK_TIME + COMM_TIME + COMM_TIME * em)) by (nonlinear_arith)
                    requires
                        0 <= edges@.len() as int <= em,
                        n >= 0,
                ;
                assert(spec_direction_budget(n as int, edges@.len() as int) <= xb);
                assert(TASK_TIME * n * (d + 1) == TASK_TIME * n * d + TASK_TIME * n)
                    by (nonlinear_arith);
                lemma_dep_pairs_match(*self.grid, direction, dep, n as int);
                assert(edges@ =~= spec_dep_pairs(*self.grid, direction));
            }
            let order = match topological_order(n, &edges) {
                Ok(order) => order,
                Err(e) => {
                    proof {
                        assert(spec_has_blocked_set(
                            n as int,
                            spec_dep_pairs(*self.grid, self.directions@[d as int]),
                        ));
                    }
                    return Err(e);
                },
            };
            let ghost pre_procs = procs@;
            simulate_direction(&order, &edges, &owners, &mut procs);
            proof {
                assert forall|p: int| 0 <= p < procs@.len() implies (#[trigger] procs@[p]).time
                    <= (d + 1) * xb by {
                    lemma_max_time_ge(pre_procs, p);
                }
                lemma_max_time_bound(procs@, (d + 1) * xb);
                assert(direction == self.directions@[d as int]);
                assert(order@ == spec_topo_state(n as int, edges@, n as int).0);
                assert(procs@ == spec_run_procs(
                    *self.grid,
                    self.directions@,
                    self.num_processors as int,
                    d + 1 as int,
                ));
                assert(spec_sum_comm(procs@) == spec_sum_comm(pre_procs) + COMM_TIME
                    * spec_cross_count(*self.grid, direction));
                let cu = spec_total_cross_up_to(*self.grid, self.directions@, d as int);
                let cc = spec_cross_count(*self.grid, direction);
                assert(COMM_TIME * (cu + cc) == COMM_TIME * cu + COMM_TIME * cc)
                    by (nonlinear_arith);
                if spec_total_cross_up_to(
                    *self.grid,
                    self.directions@,
                    self.directions@.len() as int,
                ) == 0 {
                    lemma_total_cross_zero(
                        *self.grid,
                        self.directions@,
                        self.directions@.len() as int,
                    );
                    assert(spec_cross_count(*self.grid, direction) == 0);
                    assert(edges@.filter(cross_pred(owners@)).len() == 0);
                    assert forall|p: int| 0 <= p < procs@.len() implies (#[trigger] procs@[
                        p
                    ]).time_spent_waiting == 0 by {
                        assert(pre_procs[p].time_spent_waiting == 0);
                    }
                }
            }
            d = d + 1;
        }
        proof {
            if spec_total_cross_up_to(
                *self.grid,
                self.directions@,
                self.directions@.len() as int,
            ) == 0 {
                lemma_sum_wait_zero(procs@);
            }
        }
        Ok(procs)
    }

    /// Drives all directions to completion and reduces the processors into
    /// one run summary: wall time is the largest processor clock and the
    /// overheads are averaged across processors. Fails exactly when some
    /// direction's dependency graph is cyclic.
    pub fn run(&self) -> (r: Result<RunData, ScheduleError>)
        requires
            self.wf(),
        ensures
            r is Ok ==> r.unwrap().num_processors == self.num_processors,
            r is Ok ==> {
                let procs = spec_run_procs(
                    *self.grid,
                    self.directions@,
                    self.num_processors as int,
                    self.directions@.len() as int,
                );
                &&& r.unwrap().time == spec_max_time(procs)
                &&& r.unwrap().time_spent_waiting.num == spec_sum_wait(procs)
                &&& r.unwrap().time_spent_waiting.den == self.num_processors
            },
            r is Ok ==> {
                let procs = spec_run_procs(
                    *self.grid,
                    self.directions@,
                    self.num_processors as int,
                    self.directions@.len() as int,
                );
                &&& procs.len() == self.num_processors
                &&& (forall|p: int| 0 <= p < procs.len() ==> (#[trigger] procs[p]).wf())
                &&& spec_sum_working(procs) == TASK_TIME * self.grid.cells().len()
                    * self.directions@.len()
                &&& spec_sum_comm(procs) == COMM_TIME * spec_total_cross_up_to(
                    *self.grid,
                    self.directions@,
                    self.directions@.len() as int,
                )
            },
            r is Ok ==> r.unwrap().time_spent_communicating.num == COMM_TIME
                * spec_total_cross_up_to(
                *self.grid,
                self.directions@,
                self.directions@.len() as int,
            ) && r.unwrap().time_spent_communicating.den == self.num_processors,
            r is Ok && spec_total_cross_up_to(
                *self.grid,
                self.directions@,
                self.directions@.len() as int,
            ) == 0 ==> r.unwrap().time_spent_communicating.num == 0
                && r.unwrap().time_spent_waiting.num == 0,
            r is Err ==> r.unwrap_err() == ScheduleError::CyclicDependency,
            r is Err ==> exists|d: int|
                0 <= d < self.directions@.len() && spec_has_blocked_set(
                    self.grid.cells().len() as int,
                    spec_dep_pairs(*self.grid, #[trigger] self.directions@[d]),
                ),
            (forall|d: int|
                0 <= d < self.directions@.len() ==> !spec_has_blocked_set(
                    self.grid.cells().len() as int,
                    spec_dep_pairs(*self.grid, #[trigger] self.directions@[d]),
                )) ==> r is Ok,
    {
        let procs = match self.run_processors() {
            Ok(procs) => procs,
            Err(e) => {
                return Err(e);
            },
        };
        proof {
            let ghost budget = self.directions@.len() * spec_direction_budget(
                self.grid.cells().len() as int,
                self.grid.data.edge_triples().len() as int,
            );
            assert(self.grid.cells().len() * (TASK_TIME + COMM_TIME + COMM_TIME * (
            self.grid.data.edge_triples().len() as int)) >= 0) by (nonlinear_arith)
                requires
                    self.grid.cells().len() >= 0,
                    self.grid.data.edge_triples().len() >= 0,
            ;
            assert(budget >= 0) by (nonlinear_arith)
                requires
                    budget == self.directions@.len() * spec_direction_budget(
                        self.grid.cells().len() as int,
                        self.grid.data.edge_triples().len() as int,
                    ),
                    self.directions@.len() >= 0,
                    spec_direction_budget(
                        self.grid.cells().len() as int,
                        self.grid.data.edge_triples().len() as int,
                    ) >= 0,
            ;
            assert forall|p: int|
                0 <= p < procs@.len() implies (#[trigger] procs@[
                p
            ]).time_spent_communicating <= budget && procs@[p].time_spent_waiting <= budget by {
                assert(procs@[p].wf());
            }
            lemma_sum_overheads_bounded(procs@, budget);
            assert(procs@.len() * budget <= u64::MAX) by (nonlinear_arith)
                requires
                    procs@.len() == self.num_processors,
                    self.num_processors * budget <= u64::MAX,
            ;
        }
        Ok(RunData::new(&procs))
    }
}

/// Freshly created processors sum to zero compute time.
proof fn lemma_sum_working_zero(procs: Seq<Processor>)
    requires
        forall|p: int| 0 <= p < procs.len() ==> (#[trigger] procs[p]).time_spent_working == 0,
    ensures
        spec_sum_working(procs) == 0,
    decreases procs.len(),
{
    if procs.len() > 0 {
        lemma_sum_working_zero(procs.drop_last());
    }
}

/// Freshly created processors sum to zero communication time.
proof fn lemma_sum_comm_zero(procs: Seq<Processor>)
    requires
        forall|p: int|
            0 <= p < procs.len() ==> (#[trigger] procs[p]).time_spent_communicating == 0,
    ensures
        spec_sum_comm(procs) == 0,
    decreases procs.len(),
{
    if procs.len() > 0 {
        lemma_sum_comm_zero(procs.drop_last());
    }
}

/// Sum of the processors' compute times.
pub open spec fn spec_sum_working(procs: Seq<Processor>) -> int
    decreases procs.len(),
{
    if procs.len() == 0 {
        0
    } else {
        spec_sum_working(procs.drop_last()) + procs.last().time_spent_working
    }
}

/// Updating one processor moves the communication-time sum by the difference
/// at that position.
proof fn lemma_sum_comm_update(procs: Seq<Processor>, i: int, v: Processor)
    requires
        0 <= i < procs.len(),
    ensures
        spec_sum_comm(procs.update(i, v)) == spec_sum_comm(procs)
            - procs[i].time_spent_communicating + v.time_spent_communicating,
    decreases procs.len(),
{
    let t = procs.update(i, v);
    if i == procs.len() - 1 {
        assert(t.drop_last() =~= procs.drop_last());
    } else {
        assert(t.drop_last() =~= procs.drop_last().update(i, v));
        lemma_sum_comm_update(procs.drop_last(), i, v);
    }
}

/// Updating one processor moves the compute-time sum by the difference at
/// that position.
proof fn lemma_sum_working_update(procs: Seq<Processor>, i: int, v: Processor)
    requires
        0 <= i < procs.len(),
    ensures
        spec_sum_working(procs.update(i, v)) == spec_sum_working(procs)
            - procs[i].time_spent_working + v.time_spent_working,
    decreases procs.len(),
{
    let t = procs.update(i, v);
    if i == procs.len() - 1 {
        assert(t.drop_last() =~= procs.drop_last());
    } else {
        assert(t.drop_last() =~= procs.drop_last().update(i, v));
        lemma_sum_working_update(procs.drop_last(), i, v);
    }
}

/// The maximum clock is never negative.
proof fn lemma_max_time_nonneg(procs: Seq<Processor>)
    ensures
        spec_max_time(procs) >= 0,
    decreases procs.len(),
{
    if procs.len() > 0 {
        lemma_max_time_nonneg(procs.drop_last());
    }
}

/// Every processor's clock is at most the maximum clock.
proof fn lemma_max_time_ge(procs: Seq<Processor>, p: int)
    requires
        0 <= p < procs.len(),
    ensures
        procs[p].time <= spec_max_time(procs),
    decreases procs.len(),
{
    if p < procs.len() - 1 {
        lemma_max_time_ge(procs.drop_last(), p);
    }
}

/// If every clock is at most `b`, so is the maximum.
proof fn lemma_max_time_bound(procs: Seq<Processor>, b: int)
    requires
        b >= 0,
        forall|p: int| 0 <= p < procs.len() ==> (#[trigger] procs[p]).time <= b,
    ensures
        spec_max_time(procs) <= b,
    decreases procs.len(),
{
    if procs.len() > 0 {
        lemma_max_time_bound(procs.drop_last(), b);
    }
}

/// If every communication time is at most `b`, their sum is at most
/// `len * b`; likewise for idle times.
proof fn lemma_sum_overheads_bounded(procs: Seq<Processor>, b: int)
    requires
        b >= 0,
        forall|p: int|
            0 <= p < procs.len() ==> (#[trigger] procs[p]).time_spent_communicating <= b
                && procs[p].time_spent_waiting <= b,
    ensures
        spec_sum_comm(procs) <= procs.len() * b,
        spec_sum_wait(procs) <= procs.len() * b,
    decreases procs.len(),
{
    if procs.len() == 0 {
    } else {
        lemma_sum_overheads_bounded(procs.drop_last(), b);
        assert(procs.len() * b == (procs.len() - 1) * b + b) by (nonlinear_arith);
    }
}

} // verus!
