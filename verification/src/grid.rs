//! Mesh of cells connected by shared faces, and the per-direction task
//! dependency graph derived from it.
//!
//! The mesh is a graph of [`Cell`] payloads with [`Face`] edge payloads; a
//! face's normal is the difference of the two cells' centers, stored in
//! source-to-target order. For a sweep direction, an edge is downwind when
//! the dot product of its face normal with the direction vector is negative;
//! every downwind mesh edge becomes a dependency edge from the upwind cell's
//! task to the downwind cell's task.

use vstd::prelude::*;

use crate::graph::{Graph, NodeIndex, source_is, triple_pair, lemma_filter_push};
use crate::vector_3d::Vector3D;

verus! {

/// Mesh cell: unique label, center position, assigned processor index.
#[derive(Clone, Copy, PartialEq, Eq, Structural, Hash, Debug)]
pub struct Cell {
    pub label: usize,
    pub center: Vector3D,
    pub processor_num: usize,
}

/// Edge payload between two neighboring cells: the normal vector, computed
/// as source center minus target center.
#[derive(Clone, Copy, PartialEq, Eq, Structural, Debug)]
pub struct Face {
    pub normal: Vector3D,
}

/// Sweep direction: its position within the generated direction set and its
/// vector. Directions are immutable and shared across meshes.
#[derive(Clone, Copy, PartialEq, Eq, Structural, Hash, Debug)]
pub struct Direction {
    pub index: usize,
    pub vector: Vector3D,
}

/// Unit of schedulable work for one (cell, direction) pair. Two tasks are
/// equal exactly when their cell and direction match.
#[derive(Clone, Copy, PartialEq, Eq, Structural, Debug)]
pub struct Task {
    pub cell: Cell,
    pub direction: Direction,
}

/// The mesh: a graph of cells connected by faces.
pub struct Grid {
    pub data: Graph<Cell, Face>,
}

/// The face between two cells, oriented from `a` toward `b`.
pub open spec fn spec_face_between(a: Cell, b: Cell) -> Face {
    Face {
        normal: Vector3D {
            x: (a.center.x - b.center.x) as i64,
            y: (a.center.y - b.center.y) as i64,
            z: (a.center.z - b.center.z) as i64,
        },
    }
}

/// A face is downwind for a direction when the flux crosses it from the
/// edge's source cell to its target cell: negative dot product.
pub open spec fn spec_is_downwind(face: Face, direction: Direction) -> bool {
    face.normal.spec_dot(direction.vector) < 0
}

/// Predicate on a mesh out-edge pair (target, face): downwind for `d`.
pub open spec fn downwind_pair(d: Direction) -> spec_fn((usize, Face)) -> bool {
    |p: (usize, Face)| spec_is_downwind(p.1, d)
}

/// Projection of a mesh out-edge pair to a dependency out-edge pair.
pub open spec fn pair_unit() -> spec_fn((usize, Face)) -> (usize, ()) {
    |p: (usize, Face)| (p.0, ())
}

impl Grid {
    /// Cell payloads in mesh storage order.
    pub open spec fn cells(self) -> Seq<Cell> {
        self.data.payloads()
    }

    /// The mesh graph is well-formed, every center is in coordinate range,
    /// and every face is the difference of its endpoint centers.
    pub open spec fn wf(self) -> bool {
        &&& self.data.wf()
        &&& forall|i: int|
            0 <= i < self.cells().len() ==> (#[trigger] self.cells()[i]).center.in_range()
        &&& forall|i: int, j: int|
            0 <= i < self.cells().len() && 0 <= j < self.data.node_out_edges(i).len() ==> {
                let p = #[trigger] self.data.node_out_edges(i)[j];
                p.1 == spec_face_between(self.cells()[i], self.cells()[p.0 as int])
            }
    }

    /// Builds the mesh from cells and unordered neighbor pairs given as
    /// positions into `cells`; each pair (i, j) yields one directed edge
    /// i -> j carrying the face oriented from cell i toward cell j.
    pub fn from_cell_pairs(cells: Vec<Cell>, pairs: &[(usize, usize)]) -> (g: Grid)
        requires
            forall|k: int|
                0 <= k < pairs@.len() ==> (#[trigger] pairs@[k]).0 < cells@.len() && pairs@[k].1
                    < cells@.len(),
            forall|i: int| 0 <= i < cells@.len() ==> (#[trigger] cells@[i]).center.in_range(),
        ensures
            g.wf(),
            g.cells() == cells@,
            forall|i: int|
                0 <= i < cells@.len() ==> #[trigger] g.data.node_out_edges(i) == pairs@.map_values(
                    face_triple(cells@),
                ).filter(source_is::<Face>(i)).map_values(triple_pair::<Face>()),
    {
        let mut edge_list: Vec<(usize, usize, Face)> = Vec::new();
        let mut k: usize = 0;
        while k < pairs.len()
            invariant
                k <= pairs@.len(),
                edge_list@.len() == k,
                forall|t: int|
                    0 <= t < pairs@.len() ==> (#[trigger] pairs@[t]).0 < cells@.len()
                        && pairs@[t].1 < cells@.len(),
                forall|i: int| 0 <= i < cells@.len() ==> (#[trigger] cells@[i]).center.in_range(),
                forall|t: int|
                    0 <= t < k ==> #[trigger] edge_list@[t] == face_triple(cells@)(pairs@[t]),
            decreases pairs@.len() - k,
        {
            let (i0, i1) = pairs[k];
            let face = Grid::face_between(&cells[i0], &cells[i1]);
            edge_list.push((i0, i1, face));
            k = k + 1;
        }
        proof {
            assert(edge_list@ =~= pairs@.map_values(face_triple(cells@)));
        }
        let g = Grid { data: Graph::from_nodes_and_edge_list(cells, edge_list) };
        proof {
            assert forall|i: int, j: int|
                0 <= i < g.cells().len() && 0 <= j < g.data.node_out_edges(i).len() implies {
                let p = #[trigger] g.data.node_out_edges(i)[j];
                p.1 == spec_face_between(g.cells()[i], g.cells()[p.0 as int])
            } by {
                let filtered = edge_list@.filter(source_is::<Face>(i));
                assert(g.data.node_out_edges(i)[j] == triple_pair::<Face>()(filtered[j]));
                edge_list@.lemma_filter_pred(source_is::<Face>(i), j);
                assert(filtered.contains(filtered[j]));
                edge_list@.lemma_filter_contains_rev(source_is::<Face>(i), filtered[j]);
                let t = choose|t: int| 0 <= t < edge_list@.len() && edge_list@[t] == filtered[j];
                assert(edge_list@[t] == face_triple(cells@)(pairs@[t]));
            }
        }
        g
    }

    /// The face oriented from `cell_0` toward `cell_1`.
    fn face_between(cell_0: &Cell, cell_1: &Cell) -> (f: Face)
        requires
            cell_0.center.in_range(),
            cell_1.center.in_range(),
        ensures
            f == spec_face_between(*cell_0, *cell_1),
    {
        Face { normal: cell_0.center.sub(&cell_1.center) }
    }

    /// Whether a mesh edge carrying `face` is downwind for `direction`, that
    /// is, whether the edge's source cell must be processed first.
    pub fn is_downwind(face: &Face, direction: &Direction) -> (r: bool)
        requires
            face.normal.in_wide_range(),
            direction.vector.in_wide_range(),
        ensures
            r == spec_is_downwind(*face, *direction),
    {
        let scalar_product = face.normal.dot(&direction.vector);
        scalar_product < 0
    }

    /// Number of cells in the mesh.
    pub fn len(&self) -> (r: usize)
        ensures
            r == self.cells().len(),
    {
        self.data.len()
    }

    /// Cell payloads in mesh storage order.
    pub fn iter(&self) -> (r: Vec<&Cell>)
        ensures
            r@.len() == self.cells().len(),
            forall|i: int| 0 <= i < r@.len() ==> *#[trigger] r@[i] == self.cells()[i],
    {
        self.data.iter()
    }

    /// Builds the task dependency graph for one direction: one task per cell,
    /// and one dependency edge per downwind mesh edge, from the upwind cell's
    /// task to the downwind cell's task. No task ever depends on itself.
    pub fn get_dependency_graph(&self, direction: &Direction) -> (dep: Graph<Task, ()>)
        requires
            self.wf(),
            direction.vector.in_range(),
        ensures
            dep.wf(),
            dep.node_count() == self.cells().len(),
            forall|i: int|
                0 <= i < self.cells().len() ==> #[trigger] dep.payloads()[i] == (Task {
                    cell: self.cells()[i],
                    direction: *direction,
                }),
            forall|i: int|
                0 <= i < self.cells().len() ==> #[trigger] dep.node_out_edges(i)
                    == self.data.node_out_edges(i).filter(downwind_pair(*direction)).map_values(
                    pair_unit(),
                ),
            forall|i: int, j: int|
                0 <= i < self.cells().len() && 0 <= j < dep.node_out_edges(i).len()
                    ==> (#[trigger] dep.node_out_edges(i)[j]).0 != i,
    {
        let n = self.data.len();
        let cell_refs = self.data.iter();
        let mut tasks: Vec<Task> = Vec::new();
        let mut i: usize = 0;
        while i < n
            invariant
                n == self.cells().len(),
                cell_refs@.len() == n,
                forall|k: int| 0 <= k < n ==> *#[trigger] cell_refs@[k] == self.cells()[k],
                i <= n,
                tasks@.len() == i,
                forall|k: int|
                    0 <= k < i ==> #[trigger] tasks@[k] == (Task {
                        cell: self.cells()[k],
                        direction: *direction,
                    }),
            decreases n - i,
        {
            tasks.push(Task { cell: *cell_refs[i], direction: *direction });
            i = i + 1;
        }
        let mut dependency_data: Vec<(usize, usize, ())> = Vec::new();
        let mut i: usize = 0;
        while i < n
            invariant
                self.wf(),
                n == self.cells().len(),
                i <= n,
                direction.vector.in_range(),
                forall|t: int|
                    0 <= t < dependency_data@.len() ==> (#[trigger] dependency_data@[t]).0 < n
                        && dependency_data@[t].1 < n,
                forall|c: int|
                    0 <= c < i ==> #[trigger] dependency_data@.filter(source_is::<()>(c))
                        == self.data.node_out_edges(c).filter(downwind_pair(*direction))
                        .map_values(triple_of_pair(c)),
                forall|c: int|
                    i <= c < n ==> #[trigger] dependency_data@.filter(source_is::<()>(c))
                        == Seq::<(usize, usize, ())>::empty(),
            decreases n - i,
        {
            let node = self.data.get(NodeIndex { idx: i }).unwrap();
            let mut j: usize = 0;
            while j < node.edges.len()
                invariant
                    self.wf(),
                    n == self.cells().len(),
                    i < n,
                    direction.vector.in_range(),
                    node == self.data.spec_node(i as int),
                    j <= node.edges@.len(),
                    forall|t: int|
                        0 <= t < dependency_data@.len() ==> (#[trigger] dependency_data@[t]).0 < n
                            && dependency_data@[t].1 < n,
                    forall|c: int|
                        0 <= c < i ==> #[trigger] dependency_data@.filter(source_is::<()>(c))
                            == self.data.node_out_edges(c).filter(downwind_pair(*direction))
                            .map_values(triple_of_pair(c)),
                    dependency_data@.filter(source_is::<()>(i as int))
                        == self.data.node_out_edges(i as int).take(j as int).filter(
                        downwind_pair(*direction),
                    ).map_values(triple_of_pair(i as int)),
                    forall|c: int|
                        i < c < n ==> #[trigger] dependency_data@.filter(source_is::<()>(c))
                            == Seq::<(usize, usize, ())>::empty(),
                decreases node.edges@.len() - j,
            {
                let edge = &node.edges[j];
                let ghost pre = dependency_data@;
                let ghost pair = (edge.index.idx, edge.data);
                proof {
                    assert(self.data.node_out_edges(i as int)[j as int] == pair);
                    assert(self.cells()[i as int].center.in_range());
                    assert(self.cells()[pair.0 as int].center.in_range());
                    assert(edge.data.normal.in_wide_range());
                }
                if Grid::is_downwind(&edge.data, direction) {
                    dependency_data.push((i, edge.index.idx, ()));
                }
                proof {
                    let dw = downwind_pair(*direction);
                    let out = self.data.node_out_edges(i as int);
                    assert(out.take(j + 1 as int).drop_last() =~= out.take(j as int));
                    assert(out.take(j + 1 as int) =~= out.take(j as int).push(pair));
                    assert forall|c: int| 0 <= c < n implies #[trigger] dependency_data@.filter(
                        source_is::<()>(c),
                    ) == (if spec_is_downwind(pair.1, *direction) {
                        pre.push((i, pair.0, ())).filter(source_is::<()>(c))
                    } else {
                        pre.filter(source_is::<()>(c))
                    }) by {
                        if spec_is_downwind(pair.1, *direction) {
                            assert(dependency_data@ == pre.push((i, pair.0, ())));
                        } else {
                            assert(dependency_data@ == pre);
                        }
                    }
                    if spec_is_downwind(pair.1, *direction) {
                        lemma_filter_push(out.take(j as int).filter(dw), dw, pair);
                        assert forall|c: int| 0 <= c < n && c != i as int
                            implies #[trigger] dependency_data@.filter(source_is::<()>(c))
                            == pre.filter(source_is::<()>(c)) by {
                            lemma_filter_push(pre, source_is::<()>(c), (i, pair.0, ()));
                        }
                        lemma_filter_push(pre, source_is::<()>(i as int), (i, pair.0, ()));
                        lemma_filter_push(out.take(j as int), dw, pair);
                        assert(dependency_data@.filter(source_is::<()>(i as int)) =~= out.take(
                            j + 1 as int,
                        ).filter(dw).map_values(triple_of_pair(i as int)));
                    } else {
                        lemma_filter_push(out.take(j as int), dw, pair);
                        assert(dependency_data@.filter(source_is::<()>(i as int)) =~= out.take(
                            j + 1 as int,
                        ).filter(dw).map_values(triple_of_pair(i as int)));
                    }
                }
                j = j + 1;
            }
            proof {
                let out = self.data.node_out_edges(i as int);
                assert(out.take(out.len() as int) =~= out);
            }
            i = i + 1;
        }
        let ghost dep_data = dependency_data@;
        let dep = Graph::from_nodes_and_edge_list(tasks, dependency_data);
        proof {
            assert forall|i: int| 0 <= i < self.cells().len() implies #[trigger] dep.node_out_edges(
                i,
            ) == self.data.node_out_edges(i).filter(downwind_pair(*direction)).map_values(
                pair_unit(),
            ) by {
                let lhs = dep.node_out_edges(i);
                let mid = dep_data.filter(source_is::<()>(i)).map_values(triple_pair::<()>());
                let base = self.data.node_out_edges(i).filter(downwind_pair(*direction));
                assert(lhs == mid);
                assert(dep_data.filter(source_is::<()>(i)) == base.map_values(triple_of_pair(i)));
                assert(lhs =~= base.map_values(pair_unit()));
            }
            assert forall|i: int, j: int|
                0 <= i < self.cells().len() && 0 <= j < dep.node_out_edges(i).len()
                implies (#[trigger] dep.node_out_edges(i)[j]).0 != i by {
                let out = self.data.node_out_edges(i);
                let base = out.filter(downwind_pair(*direction));
                let p = base[j];
                out.lemma_filter_pred(downwind_pair(*direction), j);
                assert(base.contains(p));
                out.lemma_filter_contains_rev(downwind_pair(*direction), p);
                let t = choose|t: int| 0 <= t < out.len() && out[t] == p;
                assert(self.data.node_out_edges(i)[t] == p);
                assert(spec_is_downwind(p.1, *direction));
                if p.0 as int == i {
                    assert(p.1 == spec_face_between(self.cells()[i], self.cells()[p.0 as int]));
                    assert(p.1 == spec_face_between(self.cells()[i], self.cells()[i]));
                    assert(p.1.normal.x == 0 && p.1.normal.y == 0 && p.1.normal.z == 0);
                    assert(p.1.normal.spec_dot(direction.vector) == 0) by (nonlinear_arith)
                        requires
                            p.1.normal.x == 0,
                            p.1.normal.y == 0,
                            p.1.normal.z == 0,
                    ;
                }
            }
        }
        dep
    }
}

/// Reversing a sweep direction to its negation flips the downwind decision of
/// every face whose dot product with the direction is nonzero, and no face is
/// downwind for both a direction and its negation: a face exactly
/// perpendicular to the direction (zero dot product) is downwind for neither.
pub proof fn lemma_is_downwind_antisymmetric(face: Face, direction: Direction, reversed: Direction)
    requires
        reversed.vector.x == -direction.vector.x,
        reversed.vector.y == -direction.vector.y,
        reversed.vector.z == -direction.vector.z,
    ensures
        !(spec_is_downwind(face, direction) && spec_is_downwind(face, reversed)),
        face.normal.spec_dot(direction.vector) != 0 ==> spec_is_downwind(face, reversed)
            == !spec_is_downwind(face, direction),
{
    assert(face.normal.spec_dot(reversed.vector) == -face.normal.spec_dot(direction.vector))
        by (nonlinear_arith)
        requires
            reversed.vector.x == -direction.vector.x,
            reversed.vector.y == -direction.vector.y,
            reversed.vector.z == -direction.vector.z,
    ;
}

/// Maps a neighbor pair to the edge triple it contributes to the mesh.
pub open spec fn face_triple(cells: Seq<Cell>) -> spec_fn((usize, usize)) -> (usize, usize, Face) {
    |p: (usize, usize)| (p.0, p.1, spec_face_between(cells[p.0 as int], cells[p.1 as int]))
}

/// Maps a downwind mesh out-edge pair of node `i` to a dependency edge triple.
pub open spec fn triple_of_pair(i: int) -> spec_fn((usize, Face)) -> (usize, usize, ()) {
    |p: (usize, Face)| (i as usize, p.0, ())
}

} // verus!
