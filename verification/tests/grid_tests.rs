use voronoi_swim::graph::Graph;
use voronoi_swim::grid::{Cell, Direction, Grid, Task};
use voronoi_swim::vector_3d::Vector3D;

fn cell(label: usize, x: i64, y: i64, z: i64) -> Cell {
    Cell { label, center: Vector3D::new(x, y, z), processor_num: 0 }
}

fn assert_tasks_equal(tasks: &[Task], indices: &[(usize, usize)]) {
    assert_eq!(tasks.len(), indices.len());
    for (task, (cell_index, dir_index)) in tasks.iter().zip(indices.iter()) {
        assert_eq!(task.cell.label, *cell_index);
        assert_eq!(task.direction.index, *dir_index);
    }
}

#[test]
fn dependency_graph() {
    let direction = Direction { index: 0, vector: Vector3D::new(1, 0, 0) };
    let cells = vec![cell(0, 0, 0, 0), cell(1, 1, 0, 0)];
    let first_cell = cells[0].clone();
    let grid = Grid::from_cell_pairs(cells, &[(0, 1)]);
    let graph = grid.get_dependency_graph(&direction);
    let nodes = graph.traverse_depth_first(&Task { cell: first_cell, direction });
    let labels: Vec<Task> = nodes.iter().map(|node| node.data.clone()).collect();
    assert_tasks_equal(&labels, &[(0, 0), (1, 0)]);
}

#[test]
fn two_cells_swept_both_ways() {
    // Two neighboring cells on the x axis, adjacency stored in both
    // orientations as a mesh file would list it.
    let cells = vec![cell(0, 0, 0, 0), cell(1, 1, 0, 0)];
    let grid = Grid::from_cell_pairs(cells, &[(0, 1), (1, 0)]);

    // The edge 0 -> 1 stores normal cell0 - cell1 = (-1, 0, 0).
    let edges = grid.data.iter_edges();
    assert_eq!(edges.len(), 2);
    let (src, _tgt, face) = edges[0];
    assert_eq!(src.label, 0);
    assert_eq!(face.normal, Vector3D::new(-1, 0, 0));

    // Sweeping along +x: cell 0's task must come before cell 1's.
    let forward = Direction { index: 0, vector: Vector3D::new(1, 0, 0) };
    let dep = grid.get_dependency_graph(&forward);
    let dep_edges = dep.iter_edges();
    assert_eq!(dep_edges.len(), 1);
    assert_eq!(dep_edges[0].0.cell.label, 0);
    assert_eq!(dep_edges[0].1.cell.label, 1);

    // Sweeping along -x: the dependency reverses.
    let backward = Direction { index: 1, vector: Vector3D::new(-1, 0, 0) };
    let dep = grid.get_dependency_graph(&backward);
    let dep_edges = dep.iter_edges();
    assert_eq!(dep_edges.len(), 1);
    assert_eq!(dep_edges[0].0.cell.label, 1);
    assert_eq!(dep_edges[0].1.cell.label, 0);
}

#[test]
fn dependency_graph_has_no_self_edges() {
    // A degenerate pair (1, 1) yields a zero normal, which is downwind for
    // no direction: the dependency graph stays free of self-edges.
    let cells = vec![cell(0, 0, 0, 0), cell(1, 1, 0, 0)];
    let grid = Grid::from_cell_pairs(cells, &[(0, 1), (1, 1)]);
    let direction = Direction { index: 0, vector: Vector3D::new(1, 0, 0) };
    let dep = grid.get_dependency_graph(&direction);
    for (a, b, _unit) in dep.iter_edges() {
        assert!(a.cell.label != b.cell.label);
    }
}

#[test]
fn graph_round_trips_nodes_and_edges() {
    let nodes = vec!["a", "b", "c"];
    let edges = vec![(0usize, 1usize, 10i64), (2, 0, 20), (0, 2, 30)];
    let graph = Graph::from_nodes_and_edge_list(nodes, edges);

    let payloads: Vec<&&str> = graph.iter();
    assert_eq!(payloads.len(), 3);
    assert_eq!(*payloads[0], "a");
    assert_eq!(*payloads[1], "b");
    assert_eq!(*payloads[2], "c");

    let mut triples: Vec<(&str, &str, i64)> =
        graph.iter_edges().iter().map(|(s, t, d)| (**s, **t, **d)).collect();
    triples.sort();
    assert_eq!(triples, vec![("a", "b", 10), ("a", "c", 30), ("c", "a", 20)]);
}

#[test]
fn extend_preserves_node_and_edge_counts() {
    let g1 = Graph::from_nodes_and_edge_list(vec![1u64, 2], vec![(0usize, 1usize, ())]);
    let g2 = Graph::from_nodes_and_edge_list(
        vec![3u64, 4, 5],
        vec![(0usize, 2usize, ()), (2, 1, ())],
    );
    let mut merged = g1;
    merged.extend(g2);
    assert_eq!(merged.len(), 5);
    let triples = merged.iter_edges();
    assert_eq!(triples.len(), 3);
    // Every merged edge still resolves to a payload of the merged graph.
    let mut endpoint_values: Vec<(u64, u64)> =
        triples.iter().map(|(s, t, _)| (**s, **t)).collect();
    endpoint_values.sort();
    assert_eq!(endpoint_values, vec![(1, 2), (3, 5), (5, 4)]);
}

#[test]
fn from_graph_list_concatenates_subgraphs() {
    let g1 = Graph::from_nodes_and_edge_list(vec![1u64, 2], vec![(0usize, 1usize, ())]);
    let g2 = Graph::from_nodes_and_edge_list(vec![3u64], Vec::<(usize, usize, ())>::new());
    let merged = Graph::from_graph_list(vec![g1, g2]);
    let payloads: Vec<u64> = merged.iter().iter().map(|p| **p).collect();
    assert_eq!(payloads, vec![1, 2, 3]);
    let triples: Vec<(u64, u64)> = merged.iter_edges().iter().map(|(s, t, _)| (**s, **t)).collect();
    assert_eq!(triples, vec![(1, 2)]);
}

#[test]
fn traversal_visits_every_reachable_node_once() {
    // A diamond: 0 -> 1, 0 -> 2, 1 -> 3, 2 -> 3; node 3 is reached twice but
    // visited once, and an unreachable node 4 is never visited.
    let nodes = vec![10u64, 11, 12, 13, 14];
    let edges = vec![(0usize, 1usize, ()), (0, 2, ()), (1, 3, ()), (2, 3, ())];
    let graph = Graph::from_nodes_and_edge_list(nodes, edges);
    let visited = graph.traverse_depth_first(&10);
    let mut payloads: Vec<u64> = visited.iter().map(|n| n.data).collect();
    assert_eq!(payloads[0], 10);
    payloads.sort();
    assert_eq!(payloads, vec![10, 11, 12, 13]);
}

#[test]
fn traversal_from_identifier_matches_payload_traversal() {
    let nodes = vec![10u64, 11, 12];
    let edges = vec![(0usize, 1usize, ()), (1, 2, ())];
    let graph = Graph::from_nodes_and_edge_list(nodes, edges);
    let by_index = graph.traverse_depth_first_from(voronoi_swim::graph::NodeIndex { idx: 0 });
    let payloads: Vec<u64> = by_index.iter().map(|n| n.data).collect();
    assert_eq!(payloads, vec![10, 11, 12]);
    // An identifier this graph never issued traverses nothing.
    let none = graph.traverse_depth_first_from(voronoi_swim::graph::NodeIndex { idx: 9 });
    assert!(none.is_empty());
}

#[test]
fn graph_get_resolves_only_issued_identifiers() {
    let graph = Graph::from_nodes_and_edge_list(vec![7u64], Vec::<(usize, usize, ())>::new());
    let node = graph.get(voronoi_swim::graph::NodeIndex { idx: 0 });
    assert_eq!(node.unwrap().data, 7);
    assert!(graph.get(voronoi_swim::graph::NodeIndex { idx: 1 }).is_none());
}

#[test]
fn vector_operations_are_exact() {
    let a = Vector3D::new(3, -4, 5);
    let b = Vector3D::new(1, 2, -3);
    let d = a.sub(&b);
    assert_eq!(d, Vector3D::new(2, -6, 8));
    assert_eq!(a.dot(&b), 3 - 8 - 15);
    assert_eq!(a.neg(), Vector3D::new(-3, 4, -5));
}
