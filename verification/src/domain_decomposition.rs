//! Domain decomposition: assigns every cell of a mesh a processor index in
//! `[0, num_processors)`, mutating the mesh in place.
//!
//! The strategy splits the cells, in storage order, into contiguous blocks of
//! nearly equal size: the cell at position `k` of `n` goes to processor
//! `k * num_processors / n`. Cells adjacent in storage order therefore mostly
//! share a processor, which keeps dependency edges crossing processor
//! boundaries rare for meshes laid out coherently.

use vstd::prelude::*;

use crate::graph::NodeIndex;
use crate::grid::{Cell, Grid};

verus! {

/// Processor index assigned to the cell at position `k` of `n` cells spread
/// over `num_processors` processors.
pub open spec fn spec_assigned_processor(k: int, n: int, num_processors: int) -> int {
    k * num_processors / n
}

/// Assigns every cell its processor index; only the `processor_num` fields
/// change, every one to `spec_assigned_processor` of its position, which
/// always lies in `[0, num_processors)`.
pub fn do_domain_decomposition(grid: &mut Grid, num_processors: usize)
    requires
        old(grid).wf(),
        num_processors >= 1,
        old(grid).cells().len() >= 1,
        old(grid).cells().len() * num_processors <= usize::MAX,
    ensures
        final(grid).wf(),
        final(grid).cells().len() == old(grid).cells().len(),
        forall|i: int|
            0 <= i < old(grid).cells().len() ==> #[trigger] final(grid).data.node_out_edges(i)
                == old(grid).data.node_out_edges(i),
        forall|k: int|
            0 <= k < old(grid).cells().len() ==> {
                let c = #[trigger] final(grid).cells()[k];
                c.label == old(grid).cells()[k].label && c.center == old(grid).cells()[k].center
                    && c.processor_num == spec_assigned_processor(
                    k,
                    old(grid).cells().len() as int,
                    num_processors as int,
                )
            },
        forall|k: int|
            0 <= k < old(grid).cells().len() ==> (#[trigger] final(grid).cells()[k]).processor_num
                < num_processors,
{
    let n = grid.data.len();
    let mut k: usize = 0;
    while k < n
        invariant
            n == grid.cells().len(),
            n == old(grid).cells().len(),
            n >= 1,
            num_processors >= 1,
            n * num_processors <= usize::MAX,
            k <= n,
            grid.data.wf(),
            forall|i: int|
                0 <= i < n ==> #[trigger] grid.data.node_out_edges(i) == old(
                    grid,
                ).data.node_out_edges(i),
            forall|i: int|
                0 <= i < n ==> (#[trigger] grid.data.spec_node(i)).index == old(
                    grid,
                ).data.spec_node(i).index,
            forall|i: int|
                k <= i < n ==> #[trigger] grid.cells()[i] == old(grid).cells()[i],
            forall|i: int|
                0 <= i < k ==> {
                    let c = #[trigger] grid.cells()[i];
                    c.label == old(grid).cells()[i].label && c.center == old(
                        grid,
                    ).cells()[i].center && c.processor_num == spec_assigned_processor(
                        i,
                        n as int,
                        num_processors as int,
                    ) && c.processor_num < num_processors
                },
        decreases n - k,
    {
        let ghost pre_grid = *grid;
        proof {
            assert(k * num_processors < n * num_processors) by (nonlinear_arith)
                requires
                    0 <= k < n,
                    num_processors >= 1,
            ;
            vstd::arithmetic::div_mod::lemma_multiply_divide_lt(
                k * num_processors,
                n as int,
                num_processors as int,
            );
        }
        let index = NodeIndex { idx: k };
        let cell = grid.data.get(index).unwrap().data;
        let assigned = (k * num_processors) / n;
        let updated = Cell { label: cell.label, center: cell.center, processor_num: assigned };
        let ghost pre = grid.data;
        grid.data.set_data(index, updated);
        proof {
            assert forall|i: int| 0 <= i < n implies #[trigger] grid.data.node_out_edges(i)
                == pre.node_out_edges(i) by {
                assert(grid.data.spec_node(i).edges == pre.spec_node(i).edges);
                assert(grid.data.spec_node(i).edges@ == pre.spec_node(i).edges@);
            }
            assert(grid.data.payloads() == pre.payloads().update(k as int, updated));
            assert forall|i: int| 0 <= i < n && i != k as int implies #[trigger] grid.cells()[i]
                == pre_grid.cells()[i] by {
                assert(grid.data.payloads()[i] == pre.payloads().update(k as int, updated)[i]);
                assert(pre_grid.cells()[i] == pre.payloads()[i]);
            }
            assert(pre_grid.cells()[k as int] == pre.spec_node(k as int).data);
            assert(grid.cells()[k as int] == updated);
            assert(updated.label == pre_grid.cells()[k as int].label);
            assert(updated.center == pre_grid.cells()[k as int].center);
        }
        k = k + 1;
    }
}

/// Any assignment of processor indices drawn from `[0, p)` shows at most `p`
/// distinct indices.
pub proof fn lemma_distinct_processors_bounded(procs: Seq<int>, p: int)
    requires
        p >= 0,
        forall|k: int| 0 <= k < procs.len() ==> 0 <= #[trigger] procs[k] < p,
    ensures
        procs.to_set().finite(),
        procs.to_set().len() <= p,
{
    let range = vstd::set_lib::set_int_range(0, p);
    vstd::set_lib::lemma_int_range(0, p);
    assert forall|x: int| procs.to_set().contains(x) implies range.contains(x) by {
        assert(procs.contains(x));
        let k = choose|k: int| 0 <= k < procs.len() && procs[k] == x;
        assert(procs[k] == x);
    }
    assert(procs.to_set().subset_of(range));
    vstd::set_lib::lemma_len_subset(procs.to_set(), range);
}

/// The processor indices present on a mesh's cells, in storage order.
pub open spec fn spec_processor_indices(grid: Grid) -> Seq<int> {
    grid.cells().map_values(|c: Cell| c.processor_num as int)
}

/// A mesh whose cells are all assigned below `p` — as `do_domain_decomposition`
/// leaves it — shows at most `p` distinct processor indices.
pub proof fn lemma_grid_distinct_processors_bounded(grid: Grid, p: int)
    requires
        p >= 0,
        forall|k: int|
            0 <= k < grid.cells().len() ==> (#[trigger] grid.cells()[k]).processor_num < p,
    ensures
        spec_processor_indices(grid).to_set().finite(),
        spec_processor_indices(grid).to_set().len() <= p,
{
    let procs = spec_processor_indices(grid);
    assert forall|k: int| 0 <= k < procs.len() implies 0 <= #[trigger] procs[k] < p by {
        assert(procs[k] == grid.cells()[k].processor_num as int);
    }
    lemma_distinct_processors_bounded(procs, p);
}

/// Largest processor index present on the cells, used to derive the
/// effective processor count of a pre-partitioned mesh.
pub fn max_processor_num(grid: &Grid) -> (r: Option<usize>)
    ensures
        grid.cells().len() == 0 ==> r is None,
        grid.cells().len() > 0 ==> r is Some && (exists|i: int|
            0 <= i < grid.cells().len() && (#[trigger] grid.cells()[i]).processor_num
                == r.unwrap()) && (forall|i: int|
            0 <= i < grid.cells().len() ==> (#[trigger] grid.cells()[i]).processor_num
                <= r.unwrap()),
{
    let cells = grid.iter();
    if cells.len() == 0 {
        return None;
    }
    let mut best: usize = cells[0].processor_num;
    let mut i: usize = 1;
    while i < cells.len()
        invariant
            cells@.len() == grid.cells().len(),
            forall|t: int| 0 <= t < cells@.len() ==> *#[trigger] cells@[t] == grid.cells()[t],
            1 <= i <= cells@.len(),
            exists|t: int|
                0 <= t < i && (#[trigger] grid.cells()[t]).processor_num == best,
            forall|t: int| 0 <= t < i ==> (#[trigger] grid.cells()[t]).processor_num <= best,
        decreases cells@.len() - i,
    {
        if cells[i].processor_num > best {
            best = cells[i].processor_num;
        }
        i = i + 1;
    }
    Some(best)
}

} // verus!
