//! Generic directed-graph container with stable node identifiers.
//!
//! Nodes carry an arbitrary payload and an ordered list of outgoing edges;
//! each edge carries the identifier of its target node plus an edge payload.
//! Nodes never reference each other directly — every cross-reference goes
//! through an identifier resolved by the owning graph. Identifiers are
//! positions into a backing store that never shrinks, so an identifier
//! returned by insertion stays valid for the life of the graph and is
//! meaningless for any other graph instance.

use vstd::prelude::*;

verus! {

use vstd::std_specs::cmp::PartialEqSpec;

/// Stable identifier of a node within its owning graph.
#[derive(Clone, Copy, PartialEq, Eq, Structural, Hash, Debug)]
pub struct NodeIndex {
    pub idx: usize,
}

/// Directed edge: target node identifier plus an edge payload.
pub struct Edge<E> {
    pub index: NodeIndex,
    pub data: E,
}

/// Node record: payload, own identifier, outgoing edges.
pub struct Node<N, E> {
    pub data: N,
    pub index: NodeIndex,
    pub edges: Vec<Edge<E>>,
}

/// Directed graph that owns all its nodes and is the sole authority for
/// resolving identifiers to payloads.
pub struct Graph<N, E> {
    pub nodes: Vec<Node<N, E>>,
}

impl<N, E> Graph<N, E> {
    /// Every node records its own position as its identifier, and every edge
    /// target resolves to a node of this graph.
    pub open spec fn wf(self) -> bool {
        &&& forall|i: int|
            0 <= i < self.nodes@.len() ==> (#[trigger] self.nodes@[i]).index.idx == i
        &&& forall|i: int, j: int|
            0 <= i < self.nodes@.len() && 0 <= j < self.nodes@[i].edges@.len()
                ==> (#[trigger] self.nodes@[i].edges@[j]).index.idx < self.nodes@.len()
    }

    /// Node payloads in storage order.
    pub open spec fn payloads(self) -> Seq<N> {
        self.nodes@.map_values(|n: Node<N, E>| n.data)
    }

    pub open spec fn spec_node(self, i: int) -> Node<N, E> {
        self.nodes@[i]
    }

    pub open spec fn node_count(self) -> nat {
        self.nodes@.len()
    }

    /// Outgoing edges of node `i` as (target identifier, edge payload) pairs.
    pub open spec fn node_out_edges(self, i: int) -> Seq<(usize, E)> {
        self.nodes@[i].edges@.map_values(edge_pair::<E>())
    }

    /// Edge triples (source, target, payload) of the nodes before `k`,
    /// flattened in storage order.
    pub open spec fn edges_up_to(self, k: int) -> Seq<(usize, usize, E)>
        decreases k,
    {
        if k <= 0 {
            Seq::empty()
        } else {
            self.edges_up_to(k - 1) + self.node_triples(k - 1)
        }
    }

    /// Edge triples of node `i` alone, in their stored order.
    pub open spec fn node_triples(self, i: int) -> Seq<(usize, usize, E)> {
        self.nodes@[i].edges@.map_values(|e: Edge<E>| (i as usize, e.index.idx, e.data))
    }

    /// All edge triples of the graph, flattened in storage order.
    pub open spec fn edge_triples(self) -> Seq<(usize, usize, E)> {
        self.edges_up_to(self.nodes@.len() as int)
    }

    fn empty() -> (g: Graph<N, E>)
        ensures
            g.wf(),
            g.payloads() == Seq::<N>::empty(),
            g.node_count() == 0,
    {
        let g = Graph { nodes: Vec::new() };
        proof {
            assert(g.payloads() =~= Seq::<N>::empty());
        }
        g
    }

    /// Builds a graph from an ordered sequence of node payloads and a list of
    /// (source position, target position, edge payload) triples over that
    /// sequence. Node `i` ends up with exactly the edges whose source is `i`,
    /// in input order.
    pub fn from_nodes_and_edge_list(nodes: Vec<N>, edges: Vec<(usize, usize, E)>) -> (g: Graph<
        N,
        E,
    >)
        requires
            forall|k: int|
                0 <= k < edges@.len() ==> (#[trigger] edges@[k]).0 < nodes@.len()
                    && edges@[k].1 < nodes@.len(),
        ensures
            g.wf(),
            g.payloads() == nodes@,
            g.node_count() == nodes@.len(),
            forall|i: int|
                0 <= i < nodes@.len() ==> #[trigger] g.node_out_edges(i) == edges@.filter(
                    source_is::<E>(i),
                ).map_values(triple_pair::<E>()),
    {
        let ghost orig_nodes = nodes@;
        let ghost orig_edges = edges@;
        let mut nodes = nodes;
        let mut edges = edges;
        let mut store: Vec<Node<N, E>> = Vec::new();
        while nodes.len() > 0
            invariant
                store@.len() + nodes@.len() == orig_nodes.len(),
                nodes@ == orig_nodes.skip(store@.len() as int),
                forall|i: int|
                    0 <= i < store@.len() ==> (#[trigger] store@[i]).data == orig_nodes[i]
                        && store@[i].index.idx == i && store@[i].edges@.len() == 0,
            decreases nodes@.len(),
        {
            let data = nodes.remove(0);
            let idx = store.len();
            store.push(Node { data, index: NodeIndex { idx }, edges: Vec::new() });
            proof {
                assert(nodes@ =~= orig_nodes.skip(store@.len() as int));
            }
        }
        while edges.len() > 0
            invariant
                store@.len() == orig_nodes.len(),
                edges@.len() <= orig_edges.len(),
                edges@ == orig_edges.skip(orig_edges.len() - edges@.len()),
                forall|k: int|
                    0 <= k < orig_edges.len() ==> (#[trigger] orig_edges[k]).0 < store@.len()
                        && orig_edges[k].1 < store@.len(),
                forall|i: int|
                    0 <= i < store@.len() ==> (#[trigger] store@[i]).data == orig_nodes[i]
                        && store@[i].index.idx == i,
                forall|i: int, j: int|
                    0 <= i < store@.len() && 0 <= j < store@[i].edges@.len()
                        ==> (#[trigger] store@[i].edges@[j]).index.idx < store@.len(),
                forall|i: int|
                    0 <= i < store@.len() ==> (#[trigger] store@[i]).edges@.map_values(
                        edge_pair::<E>(),
                    ) == orig_edges.take(orig_edges.len() - edges@.len()).filter(
                        source_is::<E>(i),
                    ).map_values(triple_pair::<E>()),
            decreases edges@.len(),
        {
            let ghost k = orig_edges.len() - edges@.len();
            let ghost done_before = orig_edges.take(k as int);
            proof {
                assert(edges@[0] == orig_edges.skip(k as int)[0]);
            }
            let (src, tgt, data) = edges.remove(0);
            let ghost pre_store = store@;
            store[src].edges.push(Edge { index: NodeIndex { idx: tgt }, data });
            proof {
                let ghost done_after = orig_edges.take(k + 1 as int);
                let ghost x = (src, tgt, data);
                assert forall|j: int| 0 <= j < edges@.len() implies edges@[j] == orig_edges.skip(
                    k + 1 as int,
                )[j] by {
                    assert(edges@[j] == orig_edges[k + 1 + j]);
                }
                assert(edges@ =~= orig_edges.skip(k + 1 as int));
                assert(done_after =~= done_before.push(x));
                assert forall|i: int| 0 <= i < store@.len() implies (#[trigger] store@[i]).edges@
                    .map_values(edge_pair::<E>()) == done_after.filter(source_is::<E>(i))
                    .map_values(triple_pair::<E>()) by {
                    let pred = source_is::<E>(i);
                    let old_pairs = pre_store[i].edges@.map_values(edge_pair::<E>());
                    assert(old_pairs == done_before.filter(pred).map_values(triple_pair::<E>()));
                    lemma_filter_push(done_before, pred, x);
                    if i == src as int {
                        assert(store@[i].edges@ == pre_store[i].edges@.push(
                            Edge { index: NodeIndex { idx: tgt }, data: x.2 },
                        ));
                        assert(pred(x));
                        let lhs = store@[i].edges@.map_values(edge_pair::<E>());
                        let rhs = done_after.filter(pred).map_values(triple_pair::<E>());
                        assert(done_after.filter(pred) == done_before.filter(pred).push(x));
                        assert forall|j: int| 0 <= j < lhs.len() implies lhs[j] == rhs[j] by {
                            if j < old_pairs.len() {
                                assert(lhs[j] == edge_pair::<E>()(pre_store[i].edges@[j]));
                                assert(lhs[j] == old_pairs[j]);
                                assert(rhs[j] == triple_pair::<E>()(done_before.filter(pred)[j]));
                            } else {
                                assert(lhs[j] == edge_pair::<E>()(store@[i].edges@[j]));
                                assert(rhs[j] == triple_pair::<E>()(x));
                            }
                        }
                        assert(lhs =~= rhs);
                    } else {
                        assert(store@[i] == pre_store[i]);
                        assert(!pred(x));
                        assert(store@[i].edges@.map_values(edge_pair::<E>()) =~= done_after.filter(
                            pred,
                        ).map_values(triple_pair::<E>()));
                    }
                }
            }
        }
        let g = Graph { nodes: store };
        proof {
            assert(g.payloads() =~= orig_nodes);
            assert(orig_edges.take(orig_edges.len() as int) =~= orig_edges);
        }
        g
    }

    /// Fresh node record for a payload and an identifier, with no edges yet.
    pub fn node_from_index(label: N, index: NodeIndex) -> (n: Node<N, E>)
        ensures
            n.data == label,
            n.index == index,
            n.edges@.len() == 0,
    {
        Node { data: label, index, edges: vec![] }
    }

    /// Node payloads in storage order. The order is insertion order only
    /// until graphs are merged; callers must not read meaning into it.
    pub fn iter(&self) -> (r: Vec<&N>)
        ensures
            r@.len() == self.payloads().len(),
            forall|i: int| 0 <= i < r@.len() ==> *#[trigger] r@[i] == self.payloads()[i],
    {
        let mut r: Vec<&N> = Vec::new();
        let mut i: usize = 0;
        while i < self.nodes.len()
            invariant
                i <= self.nodes@.len(),
                r@.len() == i,
                forall|k: int| 0 <= k < i ==> *#[trigger] r@[k] == self.payloads()[k],
            decreases self.nodes@.len() - i,
        {
            r.push(&self.nodes[i].data);
            i = i + 1;
        }
        r
    }

    /// Full node records in storage order.
    pub fn iter_nodes(&self) -> (r: Vec<&Node<N, E>>)
        ensures
            r@.len() == self.node_count(),
            forall|i: int| 0 <= i < r@.len() ==> *#[trigger] r@[i] == self.spec_node(i),
    {
        let mut r: Vec<&Node<N, E>> = Vec::new();
        let mut i: usize = 0;
        while i < self.nodes.len()
            invariant
                i <= self.nodes@.len(),
                r@.len() == i,
                forall|k: int| 0 <= k < i ==> *#[trigger] r@[k] == self.spec_node(k),
            decreases self.nodes@.len() - i,
        {
            r.push(&self.nodes[i]);
            i = i + 1;
        }
        r
    }

    /// Flattens every node's outgoing edges into (source payload, target
    /// payload, edge payload) triples, in storage order.
    pub fn iter_edges(&self) -> (r: Vec<(&N, &N, &E)>)
        requires
            self.wf(),
        ensures
            r@.len() == self.edge_triples().len(),
            forall|k: int|
                0 <= k < r@.len() ==> {
                    let t = #[trigger] self.edge_triples()[k];
                    *r@[k].0 == self.payloads()[t.0 as int] && *r@[k].1 == self.payloads()[
                        t.1 as int
                    ] && *r@[k].2 == t.2
                },
    {
        let mut r: Vec<(&N, &N, &E)> = Vec::new();
        let mut i: usize = 0;
        while i < self.nodes.len()
            invariant
                self.wf(),
                i <= self.nodes@.len(),
                r@.len() == self.edges_up_to(i as int).len(),
                forall|k: int|
                    0 <= k < r@.len() ==> {
                        let t = #[trigger] self.edges_up_to(i as int)[k];
                        *r@[k].0 == self.payloads()[t.0 as int] && *r@[k].1 == self.payloads()[
                            t.1 as int
                        ] && *r@[k].2 == t.2
                    },
            decreases self.nodes@.len() - i,
        {
            let node = &self.nodes[i];
            let mut j: usize = 0;
            while j < node.edges.len()
                invariant
                    self.wf(),
                    i < self.nodes@.len(),
                    node == self.spec_node(i as int),
                    j <= node.edges@.len(),
                    r@.len() == self.edges_up_to(i as int).len() + j,
                    forall|k: int|
                        0 <= k < r@.len() ==> {
                            let t = #[trigger] self.edges_up_to(i as int + 1)[k];
                            *r@[k].0 == self.payloads()[t.0 as int] && *r@[k].1 == self.payloads()[
                                t.1 as int
                            ] && *r@[k].2 == t.2
                        },
                decreases node.edges@.len() - j,
            {
                let edge = &node.edges[j];
                r.push((&node.data, &self.nodes[edge.index.idx].data, &edge.data));
                j = j + 1;
            }
            i = i + 1;
        }
        proof {
            assert(self.edges_up_to(self.nodes@.len() as int) == self.edge_triples());
        }
        r
    }

    /// Resolves an identifier; nothing comes back for one this graph never
    /// issued. Deliberate deviation: an identifier is a bare position, so one
    /// issued by a different graph instance resolves here whenever its
    /// position is in range — the same cross-instance behaviour the
    /// arena-with-index pattern has. Callers must not mix identifiers across
    /// graphs; nothing in the type brands an identifier with its owner.
    pub fn get(&self, index: NodeIndex) -> (r: Option<&Node<N, E>>)
        ensures
            index.idx < self.node_count() ==> r is Some && *r.unwrap() == self.spec_node(
                index.idx as int,
            ),
            index.idx >= self.node_count() ==> r is None,
    {
        if index.idx < self.nodes.len() {
            Some(&self.nodes[index.idx])
        } else {
            None
        }
    }

    /// Replaces the payload of the node at `index`, leaving its identifier
    /// and edges alone.
    pub fn set_data(&mut self, index: NodeIndex, data: N)
        requires
            index.idx < old(self).node_count(),
        ensures
            final(self).node_count() == old(self).node_count(),
            final(self).payloads() == old(self).payloads().update(index.idx as int, data),
            forall|i: int|
                0 <= i < old(self).node_count() ==> (#[trigger] final(self).spec_node(i)).index
                    == old(self).spec_node(i).index
                    && final(self).spec_node(i).edges == old(self).spec_node(i).edges,
            forall|i: int|
                0 <= i < old(self).node_count() && i != index.idx as int
                    ==> #[trigger] final(self).spec_node(i) == old(self).spec_node(i),
            old(self).wf() ==> final(self).wf(),
    {
        let i = index.idx;
        self.nodes[i].data = data;
        proof {
            assert(final(self).payloads() =~= old(self).payloads().update(index.idx as int, data));
        }
    }

    /// Node count.
    pub fn len(&self) -> (r: usize)
        ensures
            r == self.node_count(),
    {
        self.nodes.len()
    }

    /// Re-inserts every node of `other` into `self`, remapping every edge
    /// target so that identifiers issued by `other` never leak into `self`.
    /// Node and edge counts add up, existing nodes are untouched, and the
    /// re-inserted nodes keep their payloads and their edges' order, with
    /// every target shifted by the old node count.
    pub fn extend(&mut self, other: Graph<N, E>)
        requires
            old(self).wf(),
            other.wf(),
            old(self).node_count() + other.node_count() <= usize::MAX,
        ensures
            final(self).wf(),
            final(self).node_count() == old(self).node_count() + other.node_count(),
            final(self).payloads() == old(self).payloads() + other.payloads(),
            final(self).edge_triples().len() == old(self).edge_triples().len()
                + other.edge_triples().len(),
            forall|i: int|
                0 <= i < old(self).node_count() ==> #[trigger] final(self).spec_node(i) == old(
                    self,
                ).spec_node(i),
            forall|t: int|
                0 <= t < other.node_count() ==> {
                    let nd = #[trigger] final(self).spec_node(old(self).node_count() + t);
                    nd.data == other.spec_node(t).data && nd.index.idx == old(self).node_count()
                        + t && nd.edges@.len() == other.spec_node(t).edges@.len()
                },
            forall|t: int, j: int|
                0 <= t < other.node_count() && 0 <= j < other.spec_node(t).edges@.len() ==> {
                    let e = #[trigger] final(self).spec_node(
                        old(self).node_count() + t,
                    ).edges@[j];
                    e.index.idx == other.spec_node(t).edges@[j].index.idx + old(self).node_count()
                        && e.data == other.spec_node(t).edges@[j].data
                },
    {
        let offset = self.nodes.len();
        let ghost old_self = *self;
        let ghost other_nodes = other.nodes@;
        let mut rem = other.nodes;
        while rem.len() > 0
            invariant
                old_self.wf(),
                offset == old_self.node_count(),
                offset + other_nodes.len() <= usize::MAX,
                rem@.len() <= other_nodes.len(),
                rem@ == other_nodes.skip(other_nodes.len() - rem@.len()),
                self.nodes@.len() == offset + other_nodes.len() - rem@.len(),
                forall|k: int, j: int|
                    0 <= k < other_nodes.len() && 0 <= j < other_nodes[k].edges@.len()
                        ==> (#[trigger] other_nodes[k].edges@[j]).index.idx < other_nodes.len(),
                forall|i: int|
                    0 <= i < offset ==> #[trigger] self.nodes@[i] == old_self.nodes@[i],
                forall|t: int|
                    offset <= t < self.nodes@.len() ==> {
                        let nd = #[trigger] self.nodes@[t];
                        nd.data == other_nodes[t - offset].data && nd.index.idx == t
                            && nd.edges@.len() == other_nodes[t - offset].edges@.len()
                    },
                forall|t: int, j: int|
                    offset <= t < self.nodes@.len() && 0 <= j < self.nodes@[t].edges@.len() ==> {
                        let e = #[trigger] self.nodes@[t].edges@[j];
                        e.index.idx == other_nodes[t - offset].edges@[j].index.idx + offset
                            && e.data == other_nodes[t - offset].edges@[j].data
                    },
            decreases rem@.len(),
        {
            let ghost done = other_nodes.len() - rem@.len();
            proof {
                assert(rem@[0] == other_nodes.skip(done as int)[0]);
            }
            let node = rem.remove(0);
            proof {
                assert forall|j: int| 0 <= j < rem@.len() implies rem@[j] == other_nodes.skip(
                    done + 1 as int,
                )[j] by {
                    assert(rem@[j] == other_nodes[done + 1 + j]);
                }
                assert(rem@ =~= other_nodes.skip(done + 1 as int));
            }
            let idx = self.nodes.len();
            let ghost node_edges = node.edges@;
            let mut es = node.edges;
            let mut new_edges: Vec<Edge<E>> = Vec::new();
            while es.len() > 0
                invariant
                    es@.len() <= node_edges.len(),
                    es@ == node_edges.skip(node_edges.len() - es@.len()),
                    new_edges@.len() == node_edges.len() - es@.len(),
                    offset + other_nodes.len() <= usize::MAX,
                    forall|j: int|
                        0 <= j < node_edges.len()
                            ==> (#[trigger] node_edges[j]).index.idx < other_nodes.len(),
                    forall|j: int|
                        0 <= j < new_edges@.len() ==> (#[trigger] new_edges@[j]).index.idx
                            == node_edges[j].index.idx + offset && new_edges@[j].data
                            == node_edges[j].data,
                decreases es@.len(),
            {
                let ghost edone = node_edges.len() - es@.len();
                proof {
                    assert(es@[0] == node_edges.skip(edone as int)[0]);
                }
                let e = es.remove(0);
                proof {
                    assert forall|j: int| 0 <= j < es@.len() implies es@[j] == node_edges.skip(
                        edone + 1 as int,
                    )[j] by {
                        assert(es@[j] == node_edges[edone + 1 + j]);
                    }
                    assert(es@ =~= node_edges.skip(edone + 1 as int));
                }
                new_edges.push(Edge { index: NodeIndex { idx: e.index.idx + offset }, data: e.data });
            }
            self.nodes.push(Node { data: node.data, index: NodeIndex { idx }, edges: new_edges });
        }
        proof {
            assert(final(self).payloads() =~= old(self).payloads() + other.payloads());
            lemma_edges_up_to_len_eq(*self, old_self, offset as int);
            lemma_edges_up_to_offset(*self, other, offset as int, other_nodes.len() as int);
        }
    }

    /// A set of node positions closed under outgoing edges: every out-edge of
    /// a member leads to a member. The set of nodes reachable from a start
    /// node is the least such set containing the start.
    pub open spec fn closed_under_edges(self, s: Set<int>) -> bool {
        forall|v: int, j: int|
            #![trigger s.contains(v), self.nodes@[v].edges@[j]]
            s.contains(v) && 0 <= v < self.nodes@.len() && 0 <= j < self.nodes@[v].edges@.len()
                ==> s.contains(self.nodes@[v].edges@[j].index.idx as int)
    }

    /// Explores outgoing edges depth-first from the first node whose payload
    /// equals `start`, visiting each reachable node once, and returns the
    /// visited nodes in discovery order: the result begins at the start node,
    /// every out-edge target of a visited node is visited, and only nodes
    /// reachable from the start (members of every edge-closed set holding the
    /// start) are visited. The clauses identifying the start by payload hold
    /// where `==` on the payload type has a specification; for an ungated
    /// guarantee, start from an identifier via `traverse_depth_first_from`.
    /// The order is a valid execution order for a dependency graph only where
    /// the graph is tree-like; general DAGs need a topological order instead.
    pub fn traverse_depth_first(&self, start: &N) -> (r: Vec<&Node<N, E>>)
        where N: PartialEq
        requires
            self.wf(),
        ensures
            forall|k: int|
                0 <= k < r@.len() ==> (#[trigger] r@[k]).index.idx < self.node_count() && *r@[k]
                    == self.spec_node(r@[k].index.idx as int),
            forall|k1: int, k2: int|
                0 <= k1 < r@.len() && 0 <= k2 < r@.len() && k1 != k2 ==> (#[trigger] r@[
                    k1
                ]).index.idx != (#[trigger] r@[k2]).index.idx,
            <N as vstd::std_specs::cmp::PartialEqSpec>::obeys_eq_spec() ==> ((r@.len() == 0)
                <==> (forall|i: int|
                    0 <= i < self.node_count() ==> !(#[trigger] self.spec_node(i)).data.eq_spec(
                        start,
                    ))),
            <N as vstd::std_specs::cmp::PartialEqSpec>::obeys_eq_spec() && r@.len() > 0
                ==> r@[0].data.eq_spec(start),
            forall|k: int, j: int|
                0 <= k < r@.len() && 0 <= j < r@[k].edges@.len() ==> exists|k2: int|
                    0 <= k2 < r@.len() && (#[trigger] r@[k2]).index.idx == (#[trigger] r@[
                        k
                    ].edges@[j]).index.idx,
            forall|s: Set<int>|
                (#[trigger] self.closed_under_edges(s)) && r@.len() > 0 && s.contains(
                    r@[0].index.idx as int,
                ) ==> forall|k: int|
                    0 <= k < r@.len() ==> s.contains((#[trigger] r@[k]).index.idx as int),
    {
        let n = self.nodes.len();
        let mut start_index: usize = n;
        let mut i: usize = 0;
        while i < n
            invariant
                n == self.node_count(),
                i <= n,
                start_index == n || (start_index < i
                    && <N as vstd::std_specs::cmp::PartialEqSpec>::obeys_eq_spec()
                    ==> self.spec_node(start_index as int).data.eq_spec(start)),
                start_index <= n,
                <N as vstd::std_specs::cmp::PartialEqSpec>::obeys_eq_spec() && start_index == n
                    ==> (forall|k: int|
                    0 <= k < i ==> !(#[trigger] self.spec_node(k)).data.eq_spec(start)),
                <N as vstd::std_specs::cmp::PartialEqSpec>::obeys_eq_spec() && start_index < n
                    ==> self.spec_node(start_index as int).data.eq_spec(start),
            decreases n - i,
        {
            if start_index == n && self.nodes[i].data == *start {
                start_index = i;
            }
            i = i + 1;
        }
        self.traverse_depth_first_from(NodeIndex { idx: start_index })
    }

    /// Depth-first traversal from the node with the given identifier, with
    /// the same completeness and reachability guarantees as
    /// `traverse_depth_first`, unconditionally: a valid identifier's
    /// traversal begins at its node, an invalid one yields nothing.
    pub fn traverse_depth_first_from(&self, index: NodeIndex) -> (r: Vec<&Node<N, E>>)
        requires
            self.wf(),
        ensures
            forall|k: int|
                0 <= k < r@.len() ==> (#[trigger] r@[k]).index.idx < self.node_count() && *r@[k]
                    == self.spec_node(r@[k].index.idx as int),
            forall|k1: int, k2: int|
                0 <= k1 < r@.len() && 0 <= k2 < r@.len() && k1 != k2 ==> (#[trigger] r@[
                    k1
                ]).index.idx != (#[trigger] r@[k2]).index.idx,
            index.idx < self.node_count() ==> r@.len() > 0 && r@[0].index.idx == index.idx,
            index.idx >= self.node_count() ==> r@.len() == 0,
            forall|k: int, j: int|
                0 <= k < r@.len() && 0 <= j < r@[k].edges@.len() ==> exists|k2: int|
                    0 <= k2 < r@.len() && (#[trigger] r@[k2]).index.idx == (#[trigger] r@[
                        k
                    ].edges@[j]).index.idx,
            forall|s: Set<int>|
                (#[trigger] self.closed_under_edges(s)) && r@.len() > 0 && s.contains(
                    r@[0].index.idx as int,
                ) ==> forall|k: int|
                    0 <= k < r@.len() ==> s.contains((#[trigger] r@[k]).index.idx as int),
    {
        let n = self.nodes.len();
        let start_index = index.idx;
        let mut r: Vec<&Node<N, E>> = Vec::new();
        if start_index >= n {
            return r;
        }
        let mut visited: Vec<bool> = Vec::new();
        let mut j: usize = 0;
        while j < n
            invariant
                j <= n,
                visited@.len() == j,
                forall|k: int| 0 <= k < j ==> !(#[trigger] visited@[k]),
            decreases n - j,
        {
            visited.push(false);
            j = j + 1;
        }
        let ghost pre_visited = visited@;
        let mut stack: Vec<usize> = Vec::new();
        stack.push(start_index);
        visited.set(start_index, true);
        let ghost mut num_visited: nat = 1;
        proof {
            lemma_count_true_all_false(pre_visited);
            lemma_count_true_update(pre_visited, start_index as int);
            lemma_count_true_le(visited@);
            assert forall|w: int|
                0 <= w < n && #[trigger] visited@[w] implies w == start_index as int by {
                if w != start_index as int {
                    assert(!pre_visited[w]);
                }
            }
            assert(stack@[0] == start_index);
            assert forall|w: int| 0 <= w < n && #[trigger] visited@[w] implies exists|ss: int|
                0 <= ss < stack@.len() && (#[trigger] stack@[ss]) == w by {
                assert(w == start_index as int);
                assert(stack@[0] == w);
            }
        }
        while stack.len() > 0
            invariant
                n == self.node_count(),
                self.wf(),
                start_index < n,
                visited@.len() == n,
                num_visited == count_true(visited@),
                num_visited <= n,
                forall|w: int|
                    0 <= w < n && #[trigger] visited@[w] ==> ((exists|kk: int|
                        0 <= kk < r@.len() && (#[trigger] r@[kk]).index.idx == w) || (exists|
                        ss: int,
                    |
                        0 <= ss < stack@.len() && (#[trigger] stack@[ss]) == w)),
                forall|k: int, j2: int|
                    0 <= k < r@.len() && 0 <= j2 < r@[k].edges@.len() ==> visited@[(#[trigger] r@[
                        k
                    ].edges@[j2]).index.idx as int],
                forall|s: Set<int>|
                    (#[trigger] self.closed_under_edges(s)) && s.contains(start_index as int)
                        ==> (forall|k: int|
                        0 <= k < r@.len() ==> s.contains((#[trigger] r@[k]).index.idx as int))
                        && (forall|ss: int|
                        0 <= ss < stack@.len() ==> s.contains((#[trigger] stack@[ss]) as int)),
                forall|s: int| 0 <= s < stack@.len() ==> (#[trigger] stack@[s]) < n,
                forall|s: int| 0 <= s < stack@.len() ==> visited@[#[trigger] stack@[s] as int],
                forall|s1: int, s2: int|
                    0 <= s1 < stack@.len() && 0 <= s2 < stack@.len() && s1 != s2
                        ==> (#[trigger] stack@[s1]) != (#[trigger] stack@[s2]),
                forall|k: int|
                    0 <= k < r@.len() ==> (#[trigger] r@[k]).index.idx < n && *r@[k]
                        == self.spec_node(r@[k].index.idx as int) && visited@[r@[
                        k
                    ].index.idx as int],
                forall|k1: int, k2: int|
                    0 <= k1 < r@.len() && 0 <= k2 < r@.len() && k1 != k2 ==> (#[trigger] r@[
                        k1
                    ]).index.idx != (#[trigger] r@[k2]).index.idx,
                forall|k: int, s: int|
                    0 <= k < r@.len() && 0 <= s < stack@.len() ==> (#[trigger] r@[k]).index.idx
                        != (#[trigger] stack@[s]),
                r@.len() + stack@.len() == num_visited,
                r@.len() > 0 ==> r@[0].index.idx == start_index,
                r@.len() == 0 ==> stack@.len() == 1 && stack@[0] == start_index,
            decreases n - num_visited, stack@.len(),
        {
            proof {
                lemma_count_true_le(visited@);
            }
            let ghost r0 = r@;
            let ghost st0 = stack@;
            let v = stack.pop().unwrap();
            r.push(&self.nodes[v]);
            let node = &self.nodes[v];
            proof {
                assert(stack@ =~= st0.drop_last());
                assert(v == st0[st0.len() - 1]);
                assert(r@[r@.len() - 1].index.idx == v);
                assert forall|w: int| 0 <= w < n && #[trigger] visited@[w] implies ((exists|
                    kk: int,
                |
                    0 <= kk < r@.len() && (#[trigger] r@[kk]).index.idx == w) || (exists|ss: int|
                    0 <= ss < stack@.len() && (#[trigger] stack@[ss]) == w)) by {
                    if exists|kk: int| 0 <= kk < r0.len() && (#[trigger] r0[kk]).index.idx == w {
                        let kk = choose|kk: int|
                            0 <= kk < r0.len() && (#[trigger] r0[kk]).index.idx == w;
                        assert(r@[kk].index.idx == w);
                    } else {
                        let ss = choose|ss: int|
                            0 <= ss < st0.len() && (#[trigger] st0[ss]) == w;
                        if ss == st0.len() - 1 {
                            assert(r@[r@.len() - 1].index.idx == w);
                        } else {
                            assert(stack@[ss] == w);
                        }
                    }
                }
                assert forall|s: Set<int>|
                    (#[trigger] self.closed_under_edges(s)) && s.contains(
                        start_index as int,
                    ) implies (forall|k: int|
                    0 <= k < r@.len() ==> s.contains((#[trigger] r@[k]).index.idx as int)) && (
                forall|ss: int|
                    0 <= ss < stack@.len() ==> s.contains((#[trigger] stack@[ss]) as int)) by {
                    assert(s.contains((st0[st0.len() - 1]) as int));
                    assert forall|k: int| 0 <= k < r@.len() implies s.contains(
                        (#[trigger] r@[k]).index.idx as int,
                    ) by {
                        if k < r@.len() - 1 {
                            assert(r0[k] == r@[k]);
                        } else {
                            assert(r@[k].index.idx == v);
                        }
                    }
                    assert forall|ss: int| 0 <= ss < stack@.len() implies s.contains(
                        (#[trigger] stack@[ss]) as int,
                    ) by {
                        assert(st0[ss] == stack@[ss]);
                    }
                }
            }
            let ghost nv0 = num_visited;
            let ghost sl0 = stack@.len();
            let mut j: usize = node.edges.len();
            while j > 0
                invariant
                    num_visited >= nv0,
                    num_visited == nv0 ==> stack@.len() == sl0,
                    n == self.node_count(),
                    self.wf(),
                    start_index < n,
                    v < n,
                    node == self.spec_node(v as int),
                    j <= node.edges@.len(),
                    visited@.len() == n,
                    num_visited == count_true(visited@),
                    num_visited <= n,
                    visited@[v as int],
                    r@.len() > 0 && r@[r@.len() - 1].index.idx == v && *r@[r@.len() - 1] == *node,
                    forall|w: int|
                        0 <= w < n && #[trigger] visited@[w] ==> ((exists|kk: int|
                            0 <= kk < r@.len() && (#[trigger] r@[kk]).index.idx == w) || (exists|
                            ss: int,
                        |
                            0 <= ss < stack@.len() && (#[trigger] stack@[ss]) == w)),
                    forall|k: int, j2: int|
                        0 <= k < r@.len() - 1 && 0 <= j2 < r@[k].edges@.len()
                            ==> visited@[(#[trigger] r@[k].edges@[j2]).index.idx as int],
                    forall|j2: int|
                        j <= j2 < node.edges@.len()
                            ==> visited@[(#[trigger] node.edges@[j2]).index.idx as int],
                    forall|s: Set<int>|
                        (#[trigger] self.closed_under_edges(s)) && s.contains(start_index as int)
                            ==> (forall|k: int|
                            0 <= k < r@.len() ==> s.contains(
                                (#[trigger] r@[k]).index.idx as int,
                            )) && (forall|ss: int|
                            0 <= ss < stack@.len() ==> s.contains((#[trigger] stack@[ss]) as int)),
                    forall|s: int| 0 <= s < stack@.len() ==> (#[trigger] stack@[s]) < n,
                    forall|s: int| 0 <= s < stack@.len() ==> visited@[#[trigger] stack@[s] as int],
                    forall|s1: int, s2: int|
                        0 <= s1 < stack@.len() && 0 <= s2 < stack@.len() && s1 != s2
                            ==> (#[trigger] stack@[s1]) != (#[trigger] stack@[s2]),
                    forall|k: int|
                        0 <= k < r@.len() ==> (#[trigger] r@[k]).index.idx < n && *r@[k]
                            == self.spec_node(r@[k].index.idx as int) && visited@[r@[
                            k
                        ].index.idx as int],
                    forall|k1: int, k2: int|
                        0 <= k1 < r@.len() && 0 <= k2 < r@.len() && k1 != k2 ==> (#[trigger] r@[
                            k1
                        ]).index.idx != (#[trigger] r@[k2]).index.idx,
                    forall|k: int, s: int|
                        0 <= k < r@.len() && 0 <= s < stack@.len() ==> (#[trigger] r@[k]).index.idx
                            != (#[trigger] stack@[s]),
                    r@.len() + stack@.len() == num_visited,
                    r@.len() > 0 ==> r@[0].index.idx == start_index,
                    r@.len() > 0,
                decreases j,
            {
                j = j - 1;
                let target = node.edges[j].index.idx;
                if !visited[target] {
                    let ghost pre = visited@;
                    let ghost st1 = stack@;
                    visited.set(target, true);
                    stack.push(target);
                    proof {
                        lemma_count_true_update(pre, target as int);
                        num_visited = num_visited + 1;
                        lemma_count_true_le(visited@);
                        assert forall|w: int| 0 <= w < n && #[trigger] visited@[w] implies ((
                        exists|kk: int|
                            0 <= kk < r@.len() && (#[trigger] r@[kk]).index.idx == w) || (exists|
                            ss: int,
                        |
                            0 <= ss < stack@.len() && (#[trigger] stack@[ss]) == w)) by {
                            if w == target as int {
                                assert(stack@[stack@.len() - 1] == w);
                            } else {
                                assert(pre[w]);
                                if !(exists|kk: int|
                                    0 <= kk < r@.len() && (#[trigger] r@[kk]).index.idx == w) {
                                    let ss = choose|ss: int|
                                        0 <= ss < st1.len() && (#[trigger] st1[ss]) == w;
                                    assert(stack@[ss] == w);
                                }
                            }
                        }
                        assert forall|s: Set<int>|
                            (#[trigger] self.closed_under_edges(s)) && s.contains(
                                start_index as int,
                            ) implies (forall|k: int|
                            0 <= k < r@.len() ==> s.contains(
                                (#[trigger] r@[k]).index.idx as int,
                            )) && (forall|ss: int|
                            0 <= ss < stack@.len() ==> s.contains(
                                (#[trigger] stack@[ss]) as int,
                            )) by {
                            assert(s.contains((r@[r@.len() - 1]).index.idx as int));
                            assert(s.contains(v as int));
                            assert(self.nodes@[v as int].edges@[j as int].index.idx == target);
                            assert(s.contains(target as int));
                            assert forall|ss: int| 0 <= ss < stack@.len() implies s.contains(
                                (#[trigger] stack@[ss]) as int,
                            ) by {
                                if ss < stack@.len() - 1 {
                                    assert(st1[ss] == stack@[ss]);
                                }
                            }
                        }
                    }
                }
            }
            proof {
                assert forall|k: int, j2: int|
                    0 <= k < r@.len() && 0 <= j2 < r@[k].edges@.len() implies visited@[(
                #[trigger] r@[k].edges@[j2]).index.idx as int] by {
                    if k == r@.len() - 1 {
                        assert(r@[k].edges@[j2] == node.edges@[j2]);
                    }
                }
            }
        }
        proof {
            assert forall|k: int, j: int|
                0 <= k < r@.len() && 0 <= j < r@[k].edges@.len() implies exists|k2: int|
                0 <= k2 < r@.len() && (#[trigger] r@[k2]).index.idx == (#[trigger] r@[
                    k
                ].edges@[j]).index.idx by {
                let w = r@[k].edges@[j].index.idx;
                let idx = r@[k].index.idx as int;
                assert(*r@[k] == self.spec_node(idx));
                assert(self.nodes@[idx].edges@[j].index.idx == w);
                assert(w < n);
                assert(visited@[w as int]);
            }
        }
        r
    }

    /// Combines a list of disjoint subgraphs into one graph; the result has
    /// the sum of their nodes and the sum of their edges.
    pub fn from_graph_list(graphs: Vec<Graph<N, E>>) -> (g: Graph<N, E>)
        requires
            forall|i: int| 0 <= i < graphs@.len() ==> (#[trigger] graphs@[i]).wf(),
            total_node_count(graphs@) <= usize::MAX,
        ensures
            g.wf(),
            g.node_count() == total_node_count(graphs@),
            g.edge_triples().len() == total_edge_count(graphs@),
            g.payloads() == total_payloads(graphs@),
            forall|i: int, t: int|
                0 <= i < graphs@.len() && 0 <= t < graphs@[i].node_count() ==> {
                    let nd = #[trigger] g.spec_node(
                        total_node_count(graphs@.take(i)) + t,
                    );
                    nd.data == graphs@[i].spec_node(t).data && nd.edges@.len() == graphs@[
                        i
                    ].spec_node(t).edges@.len()
                },
            forall|i: int, t: int, j: int|
                0 <= i < graphs@.len() && 0 <= t < graphs@[i].node_count() && 0 <= j < graphs@[
                    i
                ].spec_node(t).edges@.len() ==> {
                    let e = #[trigger] g.spec_node(
                        total_node_count(graphs@.take(i)) + t,
                    ).edges@[j];
                    e.index.idx == graphs@[i].spec_node(t).edges@[j].index.idx
                        + total_node_count(graphs@.take(i)) && e.data == graphs@[i].spec_node(
                        t,
                    ).edges@[j].data
                },
    {
        let ghost all = graphs@;
        let mut graphs = graphs;
        let mut g = Graph::empty();
        proof {
            assert(g.payloads() =~= total_payloads(all.take(0)));
        }
        while graphs.len() > 0
            invariant
                g.wf(),
                graphs@.len() <= all.len(),
                graphs@ == all.skip(all.len() - graphs@.len()),
                forall|i: int| 0 <= i < all.len() ==> (#[trigger] all[i]).wf(),
                total_node_count(all) <= usize::MAX,
                g.node_count() == total_node_count(all.take(all.len() - graphs@.len())),
                g.edge_triples().len() == total_edge_count(all.take(all.len() - graphs@.len())),
                g.payloads() == total_payloads(all.take(all.len() - graphs@.len())),
                forall|i: int, t: int|
                    0 <= i < all.len() - graphs@.len() && 0 <= t < all[i].node_count() ==> {
                        let nd = #[trigger] g.spec_node(total_node_count(all.take(i)) + t);
                        nd.data == all[i].spec_node(t).data && nd.edges@.len() == all[
                            i
                        ].spec_node(t).edges@.len()
                    },
                forall|i: int, t: int, j: int|
                    0 <= i < all.len() - graphs@.len() && 0 <= t < all[i].node_count() && 0 <= j
                        < all[i].spec_node(t).edges@.len() ==> {
                        let e = #[trigger] g.spec_node(
                            total_node_count(all.take(i)) + t,
                        ).edges@[j];
                        e.index.idx == all[i].spec_node(t).edges@[j].index.idx + total_node_count(
                            all.take(i),
                        ) && e.data == all[i].spec_node(t).edges@[j].data
                    },
            decreases graphs@.len(),
        {
            let ghost done = all.len() - graphs@.len();
            proof {
                assert(graphs@[0] == all.skip(done as int)[0]);
                lemma_total_counts_step(all, done as int);
                lemma_total_node_count_prefix_le(all, done + 1 as int);
                assert(all.take(done + 1 as int).drop_last() =~= all.take(done as int));
                assert(all.take(done + 1 as int).last() == all[done as int]);
            }
            let ghost pre_g = g;
            let sub = graphs.remove(0);
            g.extend(sub);
            proof {
                assert forall|j: int| 0 <= j < graphs@.len() implies graphs@[j] == all.skip(
                    done + 1 as int,
                )[j] by {
                    assert(graphs@[j] == all[done + 1 + j]);
                }
                assert(graphs@ =~= all.skip(done + 1 as int));
                assert(g.payloads() =~= total_payloads(all.take(done + 1 as int)));
                assert forall|i: int, t: int|
                    0 <= i < done + 1 && 0 <= t < all[i].node_count() implies {
                    let nd = #[trigger] g.spec_node(total_node_count(all.take(i)) + t);
                    nd.data == all[i].spec_node(t).data && nd.edges@.len() == all[i].spec_node(
                        t,
                    ).edges@.len()
                } by {
                    if i < done {
                        lemma_total_counts_step(all, i);
                        lemma_total_node_count_prefix_le(all.take(done as int), i + 1);
                        assert(all.take(done as int).take(i + 1) =~= all.take(i + 1));
                        assert(pre_g.spec_node(total_node_count(all.take(i)) + t) == g.spec_node(
                            total_node_count(all.take(i)) + t,
                        ));
                    } else {
                        assert(total_node_count(all.take(i)) == pre_g.node_count());
                    }
                }
                assert forall|i: int, t: int, j: int|
                    0 <= i < done + 1 && 0 <= t < all[i].node_count() && 0 <= j < all[
                        i
                    ].spec_node(t).edges@.len() implies {
                    let e = #[trigger] g.spec_node(total_node_count(all.take(i)) + t).edges@[j];
                    e.index.idx == all[i].spec_node(t).edges@[j].index.idx + total_node_count(
                        all.take(i),
                    ) && e.data == all[i].spec_node(t).edges@[j].data
                } by {
                    if i < done {
                        lemma_total_counts_step(all, i);
                        lemma_total_node_count_prefix_le(all.take(done as int), i + 1);
                        assert(all.take(done as int).take(i + 1) =~= all.take(i + 1));
                        assert(pre_g.spec_node(total_node_count(all.take(i)) + t) == g.spec_node(
                            total_node_count(all.take(i)) + t,
                        ));
                    } else {
                        assert(total_node_count(all.take(i)) == pre_g.node_count());
                    }
                }
            }
        }
        proof {
            assert(all.take(all.len() as int) =~= all);
        }
        g
    }
}

/// Projection of a stored edge record to its (target identifier, payload) pair.
pub open spec fn edge_pair<E>() -> spec_fn(Edge<E>) -> (usize, E) {
    |e: Edge<E>| (e.index.idx, e.data)
}

/// Predicate on an input edge triple: its source position is `i`.
pub open spec fn source_is<E>(i: int) -> spec_fn((usize, usize, E)) -> bool {
    |t: (usize, usize, E)| t.0 == i
}

/// Projection of an input edge triple to its (target position, payload) pair.
pub open spec fn triple_pair<E>() -> spec_fn((usize, usize, E)) -> (usize, E) {
    |t: (usize, usize, E)| (t.1, t.2)
}

/// Filtering a sequence extended by one element keeps the old result and
/// appends the element exactly when it satisfies the predicate.
pub proof fn lemma_filter_push<A>(s: Seq<A>, pred: spec_fn(A) -> bool, x: A)
    ensures
        pred(x) ==> s.push(x).filter(pred) == s.filter(pred).push(x),
        !pred(x) ==> s.push(x).filter(pred) == s.filter(pred),
{
    assert(s.push(x).drop_last() =~= s);
    assert(s.push(x).last() == x);
    reveal_with_fuel(Seq::filter, 2);
}

/// Predicate on an input edge triple: its source position is below `k`.
pub open spec fn source_lt<E>(k: int) -> spec_fn((usize, usize, E)) -> bool {
    |t: (usize, usize, E)| t.0 < k
}

/// Filtering by every element's predicate changes nothing.
proof fn lemma_filter_all<A>(s: Seq<A>, pred: spec_fn(A) -> bool)
    requires
        forall|i: int| 0 <= i < s.len() ==> pred(#[trigger] s[i]),
    ensures
        s.filter(pred) == s,
    decreases s.len(),
{
    reveal_with_fuel(Seq::filter, 2);
    if s.len() > 0 {
        assert forall|i: int| 0 <= i < s.drop_last().len() implies pred(
            #[trigger] s.drop_last()[i],
        ) by {
            assert(s.drop_last()[i] == s[i]);
        }
        lemma_filter_all(s.drop_last(), pred);
        assert(s.filter(pred) =~= s);
    }
}

/// Two predicates that are disjoint on a sequence's elements and together
/// make up a third split a filter: the two filtered multisets add up to the
/// third's.
pub proof fn lemma_filter_split_multiset<A>(
    s: Seq<A>,
    p: spec_fn(A) -> bool,
    q: spec_fn(A) -> bool,
    r: spec_fn(A) -> bool,
)
    requires
        forall|j: int| 0 <= j < s.len() ==> !(p(#[trigger] s[j]) && q(s[j])),
        forall|j: int| 0 <= j < s.len() ==> (r(#[trigger] s[j]) <==> p(s[j]) || q(s[j])),
    ensures
        s.filter(p).to_multiset().add(s.filter(q).to_multiset()) == s.filter(r).to_multiset(),
    decreases s.len(),
{
    broadcast use vstd::seq_lib::group_to_multiset_ensures;

    if s.len() == 0 {
        reveal_with_fuel(Seq::filter, 1);
        assert(s.filter(p) =~= Seq::<A>::empty());
        assert(s.filter(q) =~= Seq::<A>::empty());
        assert(s.filter(r) =~= Seq::<A>::empty());
        assert(s.filter(p).to_multiset().add(s.filter(q).to_multiset()) =~= s.filter(
            r,
        ).to_multiset());
    } else {
        let s0 = s.drop_last();
        let x = s.last();
        assert forall|j: int| 0 <= j < s0.len() implies !(p(#[trigger] s0[j]) && q(s0[j])) && (r(
            s0[j],
        ) <==> p(s0[j]) || q(s0[j])) by {
            assert(s0[j] == s[j]);
        }
        lemma_filter_split_multiset(s0, p, q, r);
        assert(x == s[s.len() - 1]);
        assert(s0.push(x) =~= s);
        lemma_filter_push(s0, p, x);
        lemma_filter_push(s0, q, x);
        lemma_filter_push(s0, r, x);
        if p(x) {
            assert(s.filter(p).to_multiset() =~= s0.filter(p).to_multiset().insert(x));
            assert(s.filter(p).to_multiset().add(s.filter(q).to_multiset()) =~= s.filter(
                r,
            ).to_multiset());
        } else if q(x) {
            assert(s.filter(q).to_multiset() =~= s0.filter(q).to_multiset().insert(x));
            assert(s.filter(p).to_multiset().add(s.filter(q).to_multiset()) =~= s.filter(
                r,
            ).to_multiset());
        } else {
            assert(s.filter(p).to_multiset().add(s.filter(q).to_multiset()) =~= s.filter(
                r,
            ).to_multiset());
        }
    }
}

/// The edge triples of the first `k` nodes of a graph built from an edge
/// list are exactly the input triples with source below `k`, as a multiset.
proof fn lemma_edges_partition_multiset<N, E>(
    g: Graph<N, E>,
    edges: Seq<(usize, usize, E)>,
    k: int,
)
    requires
        0 <= k <= g.node_count(),
        forall|t: int|
            0 <= t < edges.len() ==> (#[trigger] edges[t]).0 < g.node_count(),
        forall|i: int|
            0 <= i < g.node_count() ==> #[trigger] g.node_out_edges(i) == edges.filter(
                source_is::<E>(i),
            ).map_values(triple_pair::<E>()),
    ensures
        g.edges_up_to(k).to_multiset() == edges.filter(source_lt::<E>(k)).to_multiset(),
    decreases k,
{
    broadcast use vstd::seq_lib::group_to_multiset_ensures;

    if k == 0 {
        edges.lemma_all_neg_filter_empty(source_lt::<E>(0));
        assert(g.edges_up_to(0).to_multiset() =~= edges.filter(
            source_lt::<E>(0),
        ).to_multiset());
    } else {
        lemma_edges_partition_multiset(g, edges, k - 1);
        let own = edges.filter(source_is::<E>(k - 1));
        assert(g.node_out_edges(k - 1) == own.map_values(triple_pair::<E>()));
        assert(g.node_out_edges(k - 1).len() == own.len());
        assert(g.node_triples(k - 1).len() == own.len());
        assert forall|j: int| 0 <= j < own.len() implies #[trigger] g.node_triples(
            k - 1,
        )[j] == own[j] by {
            edges.lemma_filter_pred(source_is::<E>(k - 1), j);
            assert(g.node_out_edges(k - 1)[j] == triple_pair::<E>()(own[j]));
        }
        assert(g.node_triples(k - 1) =~= own);
        vstd::seq_lib::lemma_multiset_commutative(g.edges_up_to(k - 1), g.node_triples(k - 1));
        lemma_filter_split_multiset(
            edges,
            source_lt::<E>(k - 1),
            source_is::<E>(k - 1),
            source_lt::<E>(k),
        );
    }
}

/// A graph built from nodes and an edge list flattens back to exactly one
/// stored edge triple per input triple: the multisets coincide.
pub proof fn lemma_from_edge_list_multiset<N, E>(g: Graph<N, E>, edges: Seq<(usize, usize, E)>)
    requires
        forall|t: int|
            0 <= t < edges.len() ==> (#[trigger] edges[t]).0 < g.node_count(),
        forall|i: int|
            0 <= i < g.node_count() ==> #[trigger] g.node_out_edges(i) == edges.filter(
                source_is::<E>(i),
            ).map_values(triple_pair::<E>()),
    ensures
        g.edge_triples().to_multiset() == edges.to_multiset(),
{
    lemma_edges_partition_multiset(g, edges, g.node_count() as int);
    lemma_filter_all(edges, source_lt::<E>(g.node_count() as int));
}

/// Total node count of a list of graphs.
pub open spec fn total_node_count<N, E>(gs: Seq<Graph<N, E>>) -> nat
    decreases gs.len(),
{
    if gs.len() == 0 {
        0
    } else {
        total_node_count(gs.drop_last()) + gs.last().node_count()
    }
}

/// Concatenated node payloads of a list of graphs, in list order.
pub open spec fn total_payloads<N, E>(gs: Seq<Graph<N, E>>) -> Seq<N>
    decreases gs.len(),
{
    if gs.len() == 0 {
        Seq::empty()
    } else {
        total_payloads(gs.drop_last()) + gs.last().payloads()
    }
}

/// Total edge count of a list of graphs.
pub open spec fn total_edge_count<N, E>(gs: Seq<Graph<N, E>>) -> nat
    decreases gs.len(),
{
    if gs.len() == 0 {
        0
    } else {
        total_edge_count(gs.drop_last()) + gs.last().edge_triples().len()
    }
}

/// Extending a prefix of graphs by one adds that graph's counts.
proof fn lemma_total_counts_step<N, E>(gs: Seq<Graph<N, E>>, k: int)
    requires
        0 <= k < gs.len(),
    ensures
        total_node_count(gs.take(k + 1)) == total_node_count(gs.take(k)) + gs[k].node_count(),
        total_edge_count(gs.take(k + 1)) == total_edge_count(gs.take(k)) + gs[
            k
        ].edge_triples().len(),
{
    assert(gs.take(k + 1).drop_last() =~= gs.take(k));
    assert(gs.take(k + 1).last() == gs[k]);
}

/// A prefix never counts more nodes than the whole list.
proof fn lemma_total_node_count_prefix_le<N, E>(gs: Seq<Graph<N, E>>, k: int)
    requires
        0 <= k <= gs.len(),
    ensures
        total_node_count(gs.take(k)) <= total_node_count(gs),
    decreases gs.len() - k,
{
    if k == gs.len() {
        assert(gs.take(k) =~= gs);
    } else {
        lemma_total_counts_step(gs, k);
        lemma_total_node_count_prefix_le(gs, k + 1);
    }
}

/// Two graphs whose first `k` nodes have equally long edge lists flatten to
/// equally many edge triples over those nodes.
proof fn lemma_edges_up_to_len_eq<N, E>(g1: Graph<N, E>, g2: Graph<N, E>, k: int)
    requires
        k <= g1.nodes@.len(),
        k <= g2.nodes@.len(),
        forall|i: int|
            0 <= i < k ==> (#[trigger] g1.nodes@[i]).edges@.len() == g2.nodes@[i].edges@.len(),
    ensures
        g1.edges_up_to(k).len() == g2.edges_up_to(k).len(),
    decreases k,
{
    if k > 0 {
        lemma_edges_up_to_len_eq(g1, g2, k - 1);
    }
}

/// A graph whose nodes have pointwise no longer edge lists than another's
/// flattens to no more edge triples over those nodes.
pub proof fn lemma_edges_up_to_len_le<N1, E1, N2, E2>(
    g1: Graph<N1, E1>,
    g2: Graph<N2, E2>,
    k: int,
)
    requires
        k <= g1.nodes@.len(),
        k <= g2.nodes@.len(),
        forall|i: int|
            0 <= i < k ==> (#[trigger] g1.nodes@[i]).edges@.len() <= g2.nodes@[i].edges@.len(),
    ensures
        g1.edges_up_to(k).len() <= g2.edges_up_to(k).len(),
    decreases k,
{
    if k > 0 {
        lemma_edges_up_to_len_le(g1, g2, k - 1);
    }
}

/// The edge triples of the nodes in `[offset, offset + j)` of `g` count the
/// same as the first `j` nodes of `other` when their edge lists have equal
/// lengths pointwise.
proof fn lemma_edges_up_to_offset<N, E>(g: Graph<N, E>, other: Graph<N, E>, offset: int, j: int)
    requires
        0 <= offset,
        0 <= j,
        offset + j <= g.nodes@.len(),
        j <= other.nodes@.len(),
        forall|t: int|
            0 <= t < j ==> (#[trigger] g.nodes@[offset + t]).edges@.len()
                == other.nodes@[t].edges@.len(),
    ensures
        g.edges_up_to(offset + j).len() == g.edges_up_to(offset).len() + other.edges_up_to(
            j,
        ).len(),
    decreases j,
{
    if j > 0 {
        lemma_edges_up_to_offset(g, other, offset, j - 1);
    }
}

/// Number of `true` entries of a boolean sequence.
pub open spec fn count_true(s: Seq<bool>) -> nat
    decreases s.len(),
{
    if s.len() == 0 {
        0
    } else {
        count_true(s.drop_last()) + if s.last() {
            1nat
        } else {
            0nat
        }
    }
}

/// A sequence without a `true` entry counts none.
pub proof fn lemma_count_true_all_false(s: Seq<bool>)
    requires
        forall|k: int| 0 <= k < s.len() ==> !(#[trigger] s[k]),
    ensures
        count_true(s) == 0,
    decreases s.len(),
{
    if s.len() > 0 {
        lemma_count_true_all_false(s.drop_last());
    }
}

/// A sequence of only `true` entries counts its whole length.
pub proof fn lemma_count_true_all_true(s: Seq<bool>)
    requires
        forall|k: int| 0 <= k < s.len() ==> #[trigger] s[k],
    ensures
        count_true(s) == s.len(),
    decreases s.len(),
{
    if s.len() > 0 {
        lemma_count_true_all_true(s.drop_last());
    }
}

/// No sequence holds more `true` entries than its length.
pub proof fn lemma_count_true_le(s: Seq<bool>)
    ensures
        count_true(s) <= s.len(),
    decreases s.len(),
{
    if s.len() > 0 {
        lemma_count_true_le(s.drop_last());
    }
}

/// A full count means every entry is `true`.
pub proof fn lemma_count_true_full(s: Seq<bool>)
    requires
        count_true(s) == s.len(),
    ensures
        forall|k: int| 0 <= k < s.len() ==> #[trigger] s[k],
    decreases s.len(),
{
    if s.len() > 0 {
        lemma_count_true_le(s.drop_last());
        lemma_count_true_full(s.drop_last());
        assert forall|k: int| 0 <= k < s.len() implies #[trigger] s[k] by {
            if k < s.len() - 1 {
                assert(s.drop_last()[k]);
            }
        }
    }
}

/// Turning one `false` entry `true` raises the count by one.
pub proof fn lemma_count_true_update(s: Seq<bool>, j: int)
    requires
        0 <= j < s.len(),
        !s[j],
    ensures
        count_true(s.update(j, true)) == count_true(s) + 1,
    decreases s.len(),
{
    let t = s.update(j, true);
    if j == s.len() - 1 {
        assert(t.drop_last() =~= s.drop_last());
    } else {
        assert(t.drop_last() =~= s.drop_last().update(j, true));
        lemma_count_true_update(s.drop_last(), j);
    }
}

} // verus!
