//! The dependency graph of a build and the state of a topological, parallel schedule over it.
//!
//! Each node of the graph stands for a key; an edge leads from a key to each key that it depends
//! on. Nodes are numbered in the order they were added, and a node's weight is its own number,
//! which indexes the table of keys beside the graph. The graph itself is petgraph's.
use crate::builder::task::{
    entries_map, keys_distinct, keys_view, lemma_entries_map_at, lemma_entries_map_dom, Key, KeyView, Task, TaskView,
    Tasks,
};
use petgraph::graph::{Graph, NodeIndex};
use petgraph::visit::DfsPostOrder;
use petgraph::{Directed, Direction};
use std::collections::VecDeque;
use vstd::prelude::*;

verus! {

#[verifier::external_type_specification]
#[verifier::external_body]
#[verifier::reject_recursive_types(N)]
#[verifier::reject_recursive_types(E)]
#[verifier::reject_recursive_types(Ty)]
#[verifier::reject_recursive_types(Ix)]
pub struct ExGraph<N, E, Ty, Ix>(Graph<N, E, Ty, Ix>);

#[verifier::external_type_specification]
#[verifier::external_body]
pub struct ExDirected(Directed);

/// The node weights of a graph, in the order the nodes were added.
pub uninterp spec fn graph_nodes(g: Graph<usize, (), Directed, usize>) -> Seq<usize>;

/// The edges of a graph as (source, target) node numbers, in the order they were added.
pub uninterp spec fn graph_edges(g: Graph<usize, (), Directed, usize>) -> Seq<(usize, usize)>;

/// The nodes that petgraph's `DfsPostOrder` yields on a graph of `node_count` nodes and these
/// edges, moved to each start in turn with its visit maps kept.
pub uninterp spec fn dfs_post_order(
    node_count: nat,
    edges: Seq<(usize, usize)>,
    starts: Seq<usize>,
) -> Seq<usize>;

/// The targets of the edges that leave `a`, in the order the edges were added.
pub open spec fn out_targets(edges: Seq<(usize, usize)>, a: int) -> Seq<usize>
    decreases edges.len(),
{
    if edges.len() == 0 {
        Seq::empty()
    } else if edges.last().0 == a {
        out_targets(edges.drop_last(), a).push(edges.last().1)
    } else {
        out_targets(edges.drop_last(), a)
    }
}

/// The sources of the edges that enter `a`, in the order the edges were added.
pub open spec fn in_sources(edges: Seq<(usize, usize)>, a: int) -> Seq<usize>
    decreases edges.len(),
{
    if edges.len() == 0 {
        Seq::empty()
    } else if edges.last().1 == a {
        in_sources(edges.drop_last(), a).push(edges.last().0)
    } else {
        in_sources(edges.drop_last(), a)
    }
}

/// The nodes below `n` that no edge enters, in increasing order.
pub open spec fn nodes_without_incoming(n: nat, edges: Seq<(usize, usize)>) -> Seq<usize>
    decreases n,
{
    if n == 0 {
        Seq::empty()
    } else {
        let rest = nodes_without_incoming((n - 1) as nat, edges);
        if in_sources(edges, n - 1).len() == 0 {
            rest.push((n - 1) as usize)
        } else {
            rest
        }
    }
}

/// An empty graph.
#[verifier::external_body]
fn new_graph() -> (g: Graph<usize, (), Directed, usize>)
    ensures
        graph_nodes(g) == Seq::<usize>::empty(),
        graph_edges(g) == Seq::<(usize, usize)>::empty(),
{
    Graph::with_capacity(0, 0)
}

/// `Graph::add_node`: appends a node with this weight and returns its number, the old node count.
/// With `usize` indices the graph has no node limit.
#[verifier::external_body]
fn add_graph_node(g: &mut Graph<usize, (), Directed, usize>, weight: usize) -> (r: usize)
    ensures
        graph_nodes(*final(g)) == graph_nodes(*old(g)).push(weight),
        graph_edges(*final(g)) == graph_edges(*old(g)),
        r == graph_nodes(*old(g)).len(),
{
    g.add_node(weight).index()
}

/// `Graph::add_edge`: appends an edge from `a` to `b`. It panics on a node that does not exist.
#[verifier::external_body]
fn add_graph_edge(g: &mut Graph<usize, (), Directed, usize>, a: usize, b: usize)
    requires
        a < graph_nodes(*old(g)).len(),
        b < graph_nodes(*old(g)).len(),
    ensures
        graph_nodes(*final(g)) == graph_nodes(*old(g)),
        graph_edges(*final(g)) == graph_edges(*old(g)).push((a, b)),
{
    g.add_edge(NodeIndex::new(a), NodeIndex::new(b), ());
}

/// `Graph::neighbors_directed`: the targets of the edges leaving `a` (outgoing) or the sources
/// of those entering it, the most recently added edge first, as petgraph documents.
#[verifier::external_body]
fn neighbors(g: &Graph<usize, (), Directed, usize>, a: usize, outgoing: bool) -> (r: Vec<usize>)
    requires
        a < graph_nodes(*g).len(),
    ensures
        r@ == (if outgoing {
            out_targets(graph_edges(*g), a as int).reverse()
        } else {
            in_sources(graph_edges(*g), a as int).reverse()
        }),
{
    let dir = if outgoing { Direction::Outgoing } else { Direction::Incoming };
    g.neighbors_directed(NodeIndex::new(a), dir).map(|n| n.index()).collect()
}

/// `Graph::externals(Incoming)`: the nodes that no edge enters, in the order of their numbers.
#[verifier::external_body]
fn sources(g: &Graph<usize, (), Directed, usize>) -> (r: Vec<usize>)
    ensures
        r@ == nodes_without_incoming(graph_nodes(*g).len(), graph_edges(*g)),
{
    g.externals(Direction::Incoming).map(|n| n.index()).collect()
}

/// A `DfsPostOrder` moved to each start in turn, each traversal run to its end. It yields each
/// node at most once, every start, and, of each node it yields, all successors (a node is
/// yielded only once everything pushed after its discovery has been).
#[verifier::external_body]
fn post_order(g: &Graph<usize, (), Directed, usize>, starts: &Vec<usize>) -> (order: Vec<usize>)
    requires
        forall|i: int| 0 <= i < starts.len() ==> starts[i] < graph_nodes(*g).len(),
    ensures
        order@ == dfs_post_order(graph_nodes(*g).len(), graph_edges(*g), starts@),
        order@.no_duplicates(),
        forall|i: int| 0 <= i < order.len() ==> order[i] < graph_nodes(*g).len(),
        forall|i: int| 0 <= i < starts.len() ==> order@.contains(#[trigger] starts[i]),
        forall|i: int, t: usize|
            0 <= i < order.len() && #[trigger] out_targets(graph_edges(*g), order[i] as int).contains(
                t,
            ) ==> order@.contains(t),
{
    let mut dfs = DfsPostOrder::empty(g);
    let mut order = Vec::new();
    for s in starts.iter() {
        dfs.move_to(NodeIndex::new(*s));
        while let Some(n) = dfs.next(g) {
            order.push(n.index());
        }
    }
    order
}

/// Every edge joins two of the first `n` nodes.
pub open spec fn edges_within(edges: Seq<(usize, usize)>, n: nat) -> bool {
    forall|e: int| 0 <= e < edges.len() ==> (#[trigger] edges[e]).0 < n && edges[e].1 < n
}

/// The keys of a sequence of nodes.
pub open spec fn targets_view(keys: Seq<KeyView>, ts: Seq<usize>) -> Seq<KeyView> {
    Seq::new(ts.len(), |i: int| keys[ts[i] as int])
}

/// What a task depends on: its dependencies, then its order-only dependencies.
pub open spec fn deps_view(t: TaskView) -> Seq<KeyView> {
    t.dependencies + t.order_dependencies
}

/// Each node whose key has a task has one edge to each of the task's dependencies, in order;
/// a node whose key has no task has no edge.
pub open spec fn edges_follow_tasks(
    tasks: Map<KeyView, TaskView>,
    keys: Seq<KeyView>,
    edges: Seq<(usize, usize)>,
) -> bool {
    forall|a: int|
        0 <= a < keys.len() ==> #[trigger] targets_view(keys, out_targets(edges, a)) == (if tasks.contains_key(
            keys[a],
        ) {
            deps_view(tasks[keys[a]])
        } else {
            Seq::empty()
        })
}

/// Each node is a root, or some node numbered below it has an edge to it: the nodes are those
/// reachable from the roots.
pub open spec fn reached_from(keys: Seq<KeyView>, edges: Seq<(usize, usize)>, roots: Set<KeyView>) -> bool {
    forall|a: int|
        0 <= a < keys.len() ==> roots.contains(#[trigger] keys[a]) || exists|e: int|
            0 <= e < edges.len() && (#[trigger] edges[e]).1 == a && edges[e].0 < a
}

/// Some edge leads from `s` to `t`.
pub open spec fn has_edge(edges: Seq<(usize, usize)>, s: int, t: int) -> bool {
    exists|e: int| 0 <= e < edges.len() && (#[trigger] edges[e]).0 == s && edges[e].1 == t
}

/// No key stands for two nodes.
pub open spec fn views_distinct(keys: Seq<KeyView>) -> bool {
    forall|i: int, j: int| 0 <= i < j < keys.len() ==> keys[i] != keys[j]
}

pub proof fn lemma_out_targets_push(edges: Seq<(usize, usize)>, x: (usize, usize), a: int)
    ensures
        out_targets(edges.push(x), a) == (if x.0 == a {
            out_targets(edges, a).push(x.1)
        } else {
            out_targets(edges, a)
        }),
        in_sources(edges.push(x), a) == (if x.1 == a {
            in_sources(edges, a).push(x.0)
        } else {
            in_sources(edges, a)
        }),
{
    assert(edges.push(x).drop_last() =~= edges);
}

pub proof fn lemma_out_targets_within(edges: Seq<(usize, usize)>, a: int, n: nat)
    requires
        edges_within(edges, n),
    ensures
        forall|i: int| 0 <= i < out_targets(edges, a).len() ==> out_targets(edges, a)[i] < n,
        forall|i: int| 0 <= i < in_sources(edges, a).len() ==> in_sources(edges, a)[i] < n,
    decreases edges.len(),
{
    if edges.len() > 0 {
        assert(edges_within(edges.drop_last(), n)) by {
            assert forall|e: int| 0 <= e < edges.drop_last().len() implies (#[trigger] edges.drop_last()[e]).0
                < n && edges.drop_last()[e].1 < n by {
                assert(edges.drop_last()[e] == edges[e]);
            }
        }
        lemma_out_targets_within(edges.drop_last(), a, n);
        assert(edges[edges.len() - 1] == edges.last());
        let p = out_targets(edges.drop_last(), a);
        let q = in_sources(edges.drop_last(), a);
        assert forall|i: int| 0 <= i < out_targets(edges, a).len() implies out_targets(edges, a)[i] < n by {
            if i < p.len() {
                assert(out_targets(edges, a)[i] == p[i]);
            }
        }
        assert forall|i: int| 0 <= i < in_sources(edges, a).len() implies in_sources(edges, a)[i] < n by {
            if i < q.len() {
                assert(in_sources(edges, a)[i] == q[i]);
            }
        }
    }
}

pub proof fn lemma_targets_view_prefix(k1: Seq<KeyView>, k2: Seq<KeyView>, ts: Seq<usize>)
    requires
        k1.len() <= k2.len(),
        k2.take(k1.len() as int) == k1,
        forall|i: int| 0 <= i < ts.len() ==> ts[i] < k1.len(),
    ensures
        targets_view(k2, ts) == targets_view(k1, ts),
{
    assert forall|i: int| 0 <= i < ts.len() implies targets_view(k2, ts)[i] == targets_view(k1, ts)[i] by {
        assert(k2.take(k1.len() as int)[ts[i] as int] == k2[ts[i] as int]);
    }
    assert(targets_view(k2, ts) =~= targets_view(k1, ts));
}

pub proof fn lemma_no_out_targets(edges: Seq<(usize, usize)>, a: int, n: nat)
    requires
        edges_within(edges, n),
        a >= n,
    ensures
        out_targets(edges, a).len() == 0,
    decreases edges.len(),
{
    if edges.len() > 0 {
        assert(edges[edges.len() - 1] == edges.last());
        assert(edges_within(edges.drop_last(), n)) by {
            assert forall|e: int| 0 <= e < edges.drop_last().len() implies (#[trigger] edges.drop_last()[e]).0
                < n && edges.drop_last()[e].1 < n by {
                assert(edges.drop_last()[e] == edges[e]);
            }
        }
        lemma_no_out_targets(edges.drop_last(), a, n);
    }
}

/// Expanding one more node, whose key `key` had no task in `m`, keeps the graph following the
/// tasks of `m` with that key's task added.
pub proof fn lemma_follow_step(
    m: Map<KeyView, TaskView>,
    kp: Seq<KeyView>,
    ep: Seq<(usize, usize)>,
    kb: Seq<KeyView>,
    eb: Seq<(usize, usize)>,
    source: int,
    t: TaskView,
)
    requires
        edges_follow_tasks(m, kp, ep),
        edges_within(ep, kp.len()),
        kp.len() <= kb.len(),
        kb.take(kp.len() as int) == kp,
        views_distinct(kb),
        0 <= source < kb.len(),
        !m.contains_key(kb[source]),
        forall|k: KeyView| m.contains_key(k) ==> kp.contains(k),
        forall|a: int| a != source ==> #[trigger] out_targets(eb, a) == out_targets(ep, a),
        targets_view(kb, out_targets(eb, source)) == deps_view(t),
    ensures
        edges_follow_tasks(m.insert(kb[source], t), kb, eb),
{
    let m2 = m.insert(kb[source], t);
    assert forall|a: int| 0 <= a < kb.len() implies #[trigger] targets_view(kb, out_targets(eb, a)) == (if m2.contains_key(
        kb[a],
    ) {
        deps_view(m2[kb[a]])
    } else {
        Seq::empty()
    }) by {
        if a == source {
            assert(m2.contains_key(kb[a]));
            assert(m2[kb[a]] == t);
        } else {
            assert(kb[a] != kb[source]);
            if a < kp.len() {
                assert(kb[a] == kp[a]) by {
                    assert(kb.take(kp.len() as int)[a] == kb[a]);
                }
                lemma_out_targets_within(ep, a, kp.len());
                lemma_targets_view_prefix(kp, kb, out_targets(ep, a));
                assert(targets_view(kp, out_targets(ep, a)) == (if m.contains_key(kp[a]) {
                    deps_view(m[kp[a]])
                } else {
                    Seq::empty()
                }));
                assert(m2.contains_key(kb[a]) == m.contains_key(kp[a]));
            } else {
                lemma_no_out_targets(ep, a, kp.len());
                assert(targets_view(kb, out_targets(eb, a)) =~= Seq::<KeyView>::empty());
                if m.contains_key(kb[a]) {
                    assert(kp.contains(kb[a]));
                    let j = choose|j: int| 0 <= j < kp.len() && kp[j] == kb[a];
                    assert(kb.take(kp.len() as int)[j] == kb[j]);
                    assert(false);
                }
                assert(!m2.contains_key(kb[a]));
            }
        }
    }
}

/// Nodes added since, each with an edge from an older node, keep every node reached.
pub proof fn lemma_reached_step(
    ka: Seq<KeyView>,
    ea: Seq<(usize, usize)>,
    kb: Seq<KeyView>,
    eb: Seq<(usize, usize)>,
    roots: Set<KeyView>,
    source: int,
)
    requires
        reached_from(ka, ea, roots),
        ka.len() <= kb.len(),
        kb.take(ka.len() as int) == ka,
        ea.len() <= eb.len(),
        eb.take(ea.len() as int) == ea,
        0 <= source < ka.len(),
        forall|a: int| ka.len() <= a < kb.len() ==> #[trigger] has_edge(eb, source, a),
    ensures
        reached_from(kb, eb, roots),
{
    assert forall|a: int| 0 <= a < kb.len() implies roots.contains(#[trigger] kb[a]) || exists|e: int|
        0 <= e < eb.len() && (#[trigger] eb[e]).1 == a && eb[e].0 < a by {
        if a < ka.len() {
            assert(kb[a] == ka[a]) by {
                assert(kb.take(ka.len() as int)[a] == kb[a]);
            }
            if !roots.contains(ka[a]) {
                let e = choose|e: int| 0 <= e < ea.len() && (#[trigger] ea[e]).1 == a && ea[e].0 < a;
                assert(eb[e] == ea[e]) by {
                    assert(eb.take(ea.len() as int)[e] == eb[e]);
                }
            }
        } else {
            assert(has_edge(eb, source, a));
        }
    }
}

/// The graph of the keys that a build needs, with a table from node numbers to keys.
pub struct SchedulerGraph {
    pub graph: Graph<usize, (), Directed, usize>,
    pub keys: Vec<Key>,
}

impl SchedulerGraph {
    pub open spec fn key_views(&self) -> Seq<KeyView> {
        keys_view(self.keys@)
    }

    pub open spec fn edges(&self) -> Seq<(usize, usize)> {
        graph_edges(self.graph)
    }

    /// One node per key, each weighted with its own number; no key twice; edges between nodes.
    pub open spec fn wf(&self) -> bool {
        &&& graph_nodes(self.graph).len() == self.keys@.len()
        &&& forall|i: int| 0 <= i < self.keys@.len() ==> #[trigger] graph_nodes(self.graph)[i] == i
        &&& views_distinct(self.key_views())
        &&& edges_within(self.edges(), self.keys@.len())
    }

    /// A graph without nodes.
    pub fn new() -> (r: SchedulerGraph)
        ensures
            r.wf(),
            r.keys@.len() == 0,
            r.edges().len() == 0,
    {
        SchedulerGraph { graph: new_graph(), keys: Vec::new() }
    }

    /// The number of nodes.
    pub fn node_count(&self) -> (r: usize)
        ensures
            r == self.keys@.len(),
    {
        self.keys.len()
    }

    /// The key of node `node`.
    pub fn key(&self, node: usize) -> (r: &Key)
        requires
            node < self.keys@.len(),
        ensures
            *r == self.keys@[node as int],
    {
        &self.keys[node]
    }

    /// The node of `key`, added if there is none yet.
    fn add_or_get_node(&mut self, key: &Key) -> (r: usize)
        requires
            old(self).wf(),
        ensures
            final(self).wf(),
            r < final(self).keys@.len(),
            final(self).key_views()[r as int] == key@,
            final(self).edges() == old(self).edges(),
            if old(self).key_views().contains(key@) {
                final(self).key_views() == old(self).key_views()
            } else {
                final(self).key_views() == old(self).key_views().push(key@)
            },
    {
        let mut i: usize = 0;
        while i < self.keys.len()
            invariant
                i <= self.keys@.len(),
                self.wf(),
                self.key_views() == old(self).key_views(),
                self.edges() == old(self).edges(),
                forall|k: int| 0 <= k < i ==> self.key_views()[k] != key@,
            decreases self.keys@.len() - i,
        {
            if self.keys[i].same(key) {
                assert(self.key_views()[i as int] == key@);
                assert(old(self).key_views().contains(key@));
                return i;
            }
            i = i + 1;
        }
        let ghost before = self.key_views();
        let n = add_graph_node(&mut self.graph, self.keys.len());
        self.keys.push(key.copy());
        assert(self.key_views() =~= before.push(key@));
        assert(!before.contains(key@)) by {
            if before.contains(key@) {
                let k = choose|k: int| 0 <= k < before.len() && before[k] == key@;
                assert(self.key_views()[k] != key@);
            }
        }
        proof {
            assert forall|a: int| 0 <= a < self.keys@.len() implies #[trigger] graph_nodes(self.graph)[a] == a by {
                if a < n {
                    assert(graph_nodes(self.graph)[a] == graph_nodes(old(self).graph)[a]);
                }
            }
        }
        n
    }

    /// Adds an edge from `source` to the node of each key of `deps`, in order, adding the nodes
    /// that are missing.
    fn add_dependency_edges(&mut self, source: usize, deps: &[Key])
        requires
            old(self).wf(),
            source < old(self).keys@.len(),
        ensures
            final(self).wf(),
            old(self).keys@.len() <= final(self).keys@.len(),
            final(self).key_views().take(old(self).keys@.len() as int) == old(self).key_views(),
            old(self).edges().len() <= final(self).edges().len(),
            final(self).edges().take(old(self).edges().len() as int) == old(self).edges(),
            targets_view(final(self).key_views(), out_targets(final(self).edges(), source as int))
                == targets_view(old(self).key_views(), out_targets(old(self).edges(), source as int))
                + keys_view(deps@),
            forall|a: int|
                a != source ==> #[trigger] out_targets(final(self).edges(), a) == out_targets(
                    old(self).edges(),
                    a,
                ),
            forall|a: int|
                old(self).keys@.len() <= a < final(self).keys@.len() ==> #[trigger] has_edge(
                    final(self).edges(),
                    source as int,
                    a,
                ),
            forall|a: int|
                old(self).keys@.len() <= a < final(self).keys@.len() ==> keys_view(deps@).contains(
                    #[trigger] final(self).key_views()[a],
                ),
            forall|j: int| 0 <= j < deps@.len() ==> final(self).key_views().contains(#[trigger] deps@[j]@),
    {
        let ghost kv0 = self.key_views();
        let ghost e0 = self.edges();
        let ghost n0 = kv0.len();
        let mut k: usize = 0;
        assert(keys_view(deps@.take(0)) =~= Seq::<KeyView>::empty());
        assert(self.key_views().take(n0 as int) =~= kv0);
        assert(self.edges().take(e0.len() as int) =~= e0);
        while k < deps.len()
            invariant
                self.wf(),
                source < n0 <= self.keys@.len(),
                n0 == kv0.len(),
                k <= deps@.len(),
                self.key_views().take(n0 as int) == kv0,
                e0.len() <= self.edges().len(),
                self.edges().take(e0.len() as int) == e0,
                targets_view(self.key_views(), out_targets(self.edges(), source as int)) == targets_view(
                    kv0,
                    out_targets(e0, source as int),
                ) + keys_view(deps@.take(k as int)),
                forall|a: int| a != source ==> #[trigger] out_targets(self.edges(), a) == out_targets(e0, a),
                forall|a: int| n0 <= a < self.keys@.len() ==> #[trigger] has_edge(self.edges(), source as int, a),
                forall|a: int|
                    n0 <= a < self.keys@.len() ==> keys_view(deps@).contains(#[trigger] self.key_views()[a]),
                forall|j: int| 0 <= j < k ==> self.key_views().contains(#[trigger] deps@[j]@),
            decreases deps@.len() - k,
        {
            let ghost k1 = self.key_views();
            let ghost e1 = self.edges();
            let ghost n1 = k1.len();
            let d = self.add_or_get_node(&deps[k]);
            let ghost k2 = self.key_views();
            add_graph_edge(&mut self.graph, source, d);
            let ghost e2 = self.edges();
            proof {
                assert(e2 == e1.push((source, d)));
                assert(k2.take(n1 as int) =~= k1);
                assert(k2.take(n0 as int) =~= kv0) by {
                    assert(k1.take(n0 as int) == kv0);
                }
                assert(e2.take(e0.len() as int) =~= e0) by {
                    assert(e1.take(e0.len() as int) == e0);
                }
                assert forall|a: int| a != source implies #[trigger] out_targets(e2, a) == out_targets(e0, a) by {
                    lemma_out_targets_push(e1, (source, d), a);
                }
                lemma_out_targets_push(e1, (source, d), source as int);
                lemma_out_targets_within(e1, source as int, n1);
                lemma_targets_view_prefix(k1, k2, out_targets(e1, source as int));
                assert(targets_view(k2, out_targets(e2, source as int)) =~= targets_view(
                    k2,
                    out_targets(e1, source as int),
                ).push(k2[d as int]));
                assert(keys_view(deps@.take(k + 1)) =~= keys_view(deps@.take(k as int)).push(deps@[k as int]@));
                assert(targets_view(self.key_views(), out_targets(self.edges(), source as int)) =~= targets_view(
                    kv0,
                    out_targets(e0, source as int),
                ) + keys_view(deps@.take(k + 1)));
                assert forall|a: int| n0 <= a < self.keys@.len() implies #[trigger] has_edge(
                    self.edges(),
                    source as int,
                    a,
                ) by {
                    if a < n1 {
                        assert(has_edge(e1, source as int, a));
                        let e = choose|e: int| 0 <= e < e1.len() && (#[trigger] e1[e]).0 == source && e1[e].1 == a;
                        assert(e2[e] == e1[e]);
                    } else {
                        assert(a == d);
                        assert(e2[e1.len() as int] == (source, d));
                    }
                }
                assert forall|a: int| n0 <= a < self.keys@.len() implies keys_view(deps@).contains(
                    #[trigger] self.key_views()[a],
                ) by {
                    if a < n1 {
                        assert(k2[a] == k1[a]) by {
                            assert(k2.take(n1 as int)[a] == k2[a]);
                        }
                    } else {
                        assert(k2[a] == deps@[k as int]@);
                        assert(keys_view(deps@)[k as int] == deps@[k as int]@);
                    }
                }
                assert forall|j: int| 0 <= j < k + 1 implies self.key_views().contains(#[trigger] deps@[j]@) by {
                    if j < k {
                        assert(k1.contains(deps@[j]@));
                        let w = choose|w: int| 0 <= w < k1.len() && k1[w] == deps@[j]@;
                        assert(k2[w] == k1[w]) by {
                            assert(k2.take(n1 as int)[w] == k2[w]);
                        }
                    } else {
                        assert(k2[d as int] == deps@[j]@);
                    }
                }
                assert(edges_within(e2, k2.len())) by {
                    assert forall|e: int| 0 <= e < e2.len() implies (#[trigger] e2[e]).0 < k2.len() && e2[e].1
                        < k2.len() by {
                        if e < e1.len() {
                            assert(e2[e] == e1[e]);
                        }
                    }
                }
            }
            k = k + 1;
        }
        assert(deps@.take(deps@.len() as int) =~= deps@);
    }
}


/// The graph of every task: a node for each task's key and for each key that a task depends on,
/// and from each task's node an edge to each of its dependencies.
pub fn build_all(tasks: &Tasks) -> (r: SchedulerGraph)
    requires
        tasks.wf(),
    ensures
        r.wf(),
        edges_follow_tasks(tasks.view(), r.key_views(), r.edges()),
        forall|k: KeyView| tasks.view().contains_key(k) ==> r.key_views().contains(k),
        reached_from(r.key_views(), r.edges(), tasks.view().dom()),
{
    let entries = tasks.all_tasks();
    let mut sg = SchedulerGraph::new();
    let mut i: usize = 0;
    assert(entries_map(entries@.take(0)) =~= Map::<KeyView, TaskView>::empty()) by {
        assert(entries@.take(0).len() == 0);
    }
    while i < entries.len()
        invariant
            sg.wf(),
            i <= entries@.len(),
            keys_distinct(entries@),
            entries_map(entries@) == tasks.view(),
            edges_follow_tasks(entries_map(entries@.take(i as int)), sg.key_views(), sg.edges()),
            forall|k: KeyView|
                entries_map(entries@.take(i as int)).contains_key(k) ==> sg.key_views().contains(k),
            reached_from(sg.key_views(), sg.edges(), entries_map(entries@.take(i as int)).dom()),
        decreases entries@.len() - i,
    {
        let ghost m = entries_map(entries@.take(i as int));
        let ghost kp = sg.key_views();
        let ghost ep = sg.edges();
        let entry = &entries[i];
        let source = sg.add_or_get_node(&entry.0);
        let ghost ka = sg.key_views();
        sg.add_dependency_edges(source, entry.1.dependencies());
        let ghost kb = sg.key_views();
        let ghost eb = sg.edges();
        sg.add_dependency_edges(source, entry.1.order_dependencies());
        proof {
            let kc = sg.key_views();
            let ec = sg.edges();
            let key = entry.0@;
            let m2 = entries_map(entries@.take(i + 1));
            assert(entries@.take(i + 1).drop_last() =~= entries@.take(i as int));
            assert(m2 == m.insert(key, entry.1@));
            assert forall|j: int| 0 <= j < entries@.take(i as int).len() implies (#[trigger] entries@.take(
                i as int,
            )[j]).0@ != key by {
                assert(entries@.take(i as int)[j] == entries@[j]);
            }
            lemma_entries_map_dom(entries@.take(i as int), key);
            assert(out_targets(ep, source as int).len() == 0) by {
                if source < kp.len() {
                    assert(kp[source as int] == key);
                    assert(targets_view(kp, out_targets(ep, source as int)).len() == 0);
                } else {
                    lemma_no_out_targets(ep, source as int, kp.len());
                }
            }
            assert(kb.take(ka.len() as int) =~= ka);
            assert(kc.take(kb.len() as int) =~= kb);
            assert(kc.take(kp.len() as int) =~= kp) by {
                if ka.len() > kp.len() {
                    assert(ka == kp.push(key));
                }
                assert(kc.take(ka.len() as int) =~= ka) by {
                    assert(kb.take(ka.len() as int) == ka);
                }
            }
            assert(kc[source as int] == key) by {
                assert(kc.take(ka.len() as int) =~= ka) by {
                    assert(kb.take(ka.len() as int) == ka);
                }
                assert(kc.take(ka.len() as int)[source as int] == kc[source as int]);
            }
            assert forall|a: int| a != source implies #[trigger] out_targets(ec, a) == out_targets(ep, a) by {
                assert(out_targets(ec, a) == out_targets(eb, a));
            }
            assert(targets_view(ka, out_targets(ep, source as int)) =~= Seq::<KeyView>::empty());
            assert(deps_view(entry.1@) =~= keys_view(entry.1.dependencies@) + keys_view(
                entry.1.order_dependencies@,
            ));
            assert(targets_view(kc, out_targets(ec, source as int)) =~= deps_view(entry.1@));
            lemma_follow_step(m, kp, ep, kc, ec, source as int, entry.1@);
            assert(reached_from(ka, ep, m2.dom())) by {
                assert forall|a: int| 0 <= a < ka.len() implies m2.dom().contains(#[trigger] ka[a]) || exists|
                    e: int,
                | 0 <= e < ep.len() && (#[trigger] ep[e]).1 == a && ep[e].0 < a by {
                    if a < kp.len() {
                        assert(ka[a] == kp[a]);
                    } else {
                        assert(ka[a] == key);
                    }
                }
            }
            lemma_reached_step(ka, ep, kb, eb, m2.dom(), source as int);
            lemma_reached_step(kb, eb, kc, ec, m2.dom(), source as int);
            assert forall|k: KeyView| m2.contains_key(k) implies kc.contains(k) by {
                if k == key {
                    assert(kc[source as int] == key);
                } else {
                    assert(kp.contains(k));
                    let j = choose|j: int| 0 <= j < kp.len() && kp[j] == k;
                    assert(kc.take(kp.len() as int)[j] == kc[j]);
                }
            }
        }
        i = i + 1;
    }
    assert(entries@.take(entries@.len() as int) =~= entries@);
    sg
}

/// The requested keys that have a task.
pub open spec fn start_roots(tasks: Map<KeyView, TaskView>, start: Seq<KeyView>) -> Set<KeyView> {
    Set::new(|k: KeyView| tasks.contains_key(k) && start.contains(k))
}

/// Appends a copy of each key to the queue.
fn push_keys(queue: &mut VecDeque<Key>, keys: &[Key])
    ensures
        keys_view(final(queue)@) == keys_view(old(queue)@) + keys_view(keys@),
{
    let mut j: usize = 0;
    while j < keys.len()
        invariant
            j <= keys@.len(),
            keys_view(queue@) == keys_view(old(queue)@) + keys_view(keys@.take(j as int)),
        decreases keys@.len() - j,
    {
        let ghost before = queue@;
        queue.push_back(keys[j].copy());
        assert(keys_view(queue@) =~= keys_view(before).push(keys@[j as int]@));
        assert(keys_view(keys@.take(j + 1)) =~= keys_view(keys@.take(j as int)).push(keys@[j as int]@));
        j = j + 1;
    }
    assert(keys@.take(keys@.len() as int) =~= keys@);
}

/// The graph of the requested keys and of everything they depend on, found breadth first. A
/// requested key without a task gets no node of its own.
#[verifier::rlimit(60)]
#[verifier::spinoff_prover]
pub fn build_from(tasks: &Tasks, start: &Vec<Key>) -> (r: SchedulerGraph)
    requires
        tasks.wf(),
    ensures
        r.wf(),
        edges_follow_tasks(tasks.view(), r.key_views(), r.edges()),
        forall|k: KeyView|
            start_roots(tasks.view(), keys_view(start@)).contains(k) ==> r.key_views().contains(k),
        reached_from(r.key_views(), r.edges(), start_roots(tasks.view(), keys_view(start@))),
{
    let ghost tv = tasks.view();
    let ghost sv = keys_view(start@);
    let ghost roots = start_roots(tv, sv);
    let entries = tasks.all_tasks();
    let mut queue: VecDeque<Key> = VecDeque::new();
    push_keys(&mut queue, start.as_slice());
    assert(keys_view(queue@) =~= sv);
    let mut sg = SchedulerGraph::new();
    let mut visited: Vec<bool> = Vec::new();
    let ghost mut m: Map<KeyView, TaskView> = Map::empty();
    let ghost mut expanded: Set<int> = Set::empty();
    while queue.len() > 0
        invariant
            sg.wf(),
            tasks.wf(),
            tv == tasks.view(),
            roots == start_roots(tv, sv),
            sv == keys_view(start@),
            keys_distinct(entries@),
            entries_map(entries@) == tv,
            visited@.len() == sg.keys@.len(),
            forall|k: KeyView| #[trigger] m.contains_key(k) ==> tv.contains_key(k) && m[k] == tv[k],
            forall|k: KeyView| #[trigger] m.contains_key(k) ==> sg.key_views().contains(k),
            forall|a: int| 0 <= a < sg.keys@.len() ==> #[trigger] visited@[a] == m.contains_key(sg.key_views()[a]),
            edges_follow_tasks(m, sg.key_views(), sg.edges()),
            forall|a: int|
                0 <= a < sg.keys@.len() && tv.contains_key(sg.key_views()[a]) && !visited@[a]
                    ==> keys_view(queue@).contains(#[trigger] sg.key_views()[a]),
            forall|j: int|
                0 <= j < queue@.len() ==> sv.contains(#[trigger] keys_view(queue@)[j]) || sg.key_views().contains(
                    keys_view(queue@)[j],
                ),
            forall|k: KeyView| roots.contains(k) ==> sg.key_views().contains(k) || keys_view(queue@).contains(k),
            reached_from(sg.key_views(), sg.edges(), roots),
            expanded.finite(),
            expanded.subset_of(vstd::set_lib::set_int_range(0, entries@.len() as int)),
            forall|j: int| expanded.contains(j) ==> m.contains_key(#[trigger] entries@[j].0@),
        decreases entries@.len() - expanded.len(), queue@.len(),
    {
        proof {
            vstd::set_lib::lemma_int_range(0, entries@.len() as int);
            vstd::set_lib::lemma_len_subset(expanded, vstd::set_lib::set_int_range(0, entries@.len() as int));
        }
        let ghost q0 = keys_view(queue@);
        let key = queue.pop_front().unwrap();
        let ghost q1 = keys_view(queue@);
        assert(q1 =~= q0.subrange(1, q0.len() as int));
        assert(q0[0] == key@);
        assert forall|x: KeyView| q0.contains(x) && x != key@ implies q1.contains(x) by {
            let j = choose|j: int| 0 <= j < q0.len() && q0[j] == x;
            assert(j != 0);
            assert(q1[j - 1] == x);
        }
        assert(sv.contains(key@) || sg.key_views().contains(key@)) by {
            assert(keys_view(queue@.push(key)) == q0 || true);
        }
        match tasks.task(&key) {
            None => {},
            Some(task) => {
                let ghost kp = sg.key_views();
                let ghost ep = sg.edges();
                let ghost vp = visited@;
                assert(kp.len() == sg.keys@.len());
                let source = sg.add_or_get_node(&key);
                assert(sg.key_views().len() == sg.keys@.len());
                assert(sg.keys@.len() == kp.len() || sg.keys@.len() == kp.len() + 1);
                if visited.len() < sg.node_count() {
                    visited.push(false);
                }
                assert(visited@.len() == sg.keys@.len());
                let ghost ka = sg.key_views();
                assert(ka.take(kp.len() as int) =~= kp);
                assert(source < kp.len() ==> ka == kp);
                if !visited[source] {
                    let ghost va = visited@;
                    visited.set(source, true);
                    assert(visited@ == va.update(source as int, true));
                    sg.add_dependency_edges(source, task.dependencies());
                    let ghost kb = sg.key_views();
                    let ghost eb = sg.edges();
                    sg.add_dependency_edges(source, task.order_dependencies());
                    let ghost vs = visited@;
                    while visited.len() < sg.node_count()
                        invariant
                            vs.len() <= visited@.len() <= sg.keys@.len(),
                            forall|a: int| 0 <= a < vs.len() ==> visited@[a] == vs[a],
                            forall|a: int| vs.len() <= a < visited@.len() ==> !visited@[a],
                        decreases sg.keys@.len() - visited@.len(),
                    {
                        visited.push(false);
                    }
                    let ghost qd = keys_view(queue@);
                    push_keys(&mut queue, task.dependencies());
                    push_keys(&mut queue, task.order_dependencies());
                    proof {
                        let kc = sg.key_views();
                        let ec = sg.edges();
                        let qe = keys_view(queue@);
                        let t = task@;
                        let m2 = m.insert(key@, t);
                        assert(qe =~= q1 + keys_view(task.dependencies@) + keys_view(task.order_dependencies@));
                        assert(!m.contains_key(key@)) by {
                            assert(va[source as int] == m.contains_key(ka[source as int]));
                        }
                        // the entry of the key
                        assert(exists|j: int| 0 <= j < entries@.len() && entries@[j].0@ == key@) by {
                            if !(exists|j: int| 0 <= j < entries@.len() && entries@[j].0@ == key@) {
                                assert forall|j: int| 0 <= j < entries@.len() implies (#[trigger] entries@[j]).0@
                                    != key@ by {}
                                lemma_entries_map_dom(entries@, key@);
                            }
                        }
                        let idx = choose|j: int| 0 <= j < entries@.len() && entries@[j].0@ == key@;
                        assert(!expanded.contains(idx));
                        expanded = expanded.insert(idx);
                        vstd::set_lib::lemma_len_subset(
                            expanded,
                            vstd::set_lib::set_int_range(0, entries@.len() as int),
                        );
                        // the graph follows m2
                        assert(kb.take(ka.len() as int) =~= ka);
                        assert(kc.take(kb.len() as int) =~= kb);
                        assert(kc.take(ka.len() as int) =~= ka) by {
                            assert(kb.take(ka.len() as int) == ka);
                        }
                        assert(kc.take(kp.len() as int) =~= kp);
                        assert(kc[source as int] == key@) by {
                            assert(kc.take(ka.len() as int)[source as int] == kc[source as int]);
                        }
                        assert(out_targets(ep, source as int).len() == 0) by {
                            if source < kp.len() {
                                assert(kp[source as int] == key@);
                                assert(targets_view(kp, out_targets(ep, source as int)).len() == 0);
                            } else {
                                lemma_no_out_targets(ep, source as int, kp.len());
                            }
                        }
                        assert forall|a: int| a != source implies #[trigger] out_targets(ec, a) == out_targets(
                            ep,
                            a,
                        ) by {
                            assert(out_targets(ec, a) == out_targets(eb, a));
                        }
                        assert(targets_view(ka, out_targets(ep, source as int)) =~= Seq::<KeyView>::empty());
                        assert(deps_view(t) =~= keys_view(task.dependencies@) + keys_view(
                            task.order_dependencies@,
                        ));
                        assert(targets_view(kc, out_targets(ec, source as int)) =~= deps_view(t));
                        assert forall|k: KeyView| m.contains_key(k) implies kp.contains(k) by {}
                        lemma_follow_step(m, kp, ep, kc, ec, source as int, t);
                        // reached
                        assert(reached_from(ka, ep, roots)) by {
                            assert forall|a: int| 0 <= a < ka.len() implies roots.contains(#[trigger] ka[a]) || exists|
                                e: int,
                            | 0 <= e < ep.len() && (#[trigger] ep[e]).1 == a && ep[e].0 < a by {
                                if a < kp.len() {
                                    assert(ka[a] == kp[a]);
                                } else {
                                    assert(ka[a] == key@);
                                    assert(!kp.contains(key@));
                                    assert(sv.contains(key@));
                                }
                            }
                        }
                        lemma_reached_step(ka, ep, kb, eb, roots, source as int);
                        lemma_reached_step(kb, eb, kc, ec, roots, source as int);
                        // membership of the expanded keys
                        assert forall|k: KeyView| m2.contains_key(k) implies kc.contains(k) by {
                            if k == key@ {
                                assert(kc[source as int] == key@);
                            } else {
                                assert(kp.contains(k));
                                let j = choose|j: int| 0 <= j < kp.len() && kp[j] == k;
                                assert(kc.take(kp.len() as int)[j] == kc[j]);
                            }
                        }
                        assert forall|a: int| 0 <= a < kc.len() implies #[trigger] visited@[a] == m2.contains_key(
                            kc[a],
                        ) by {
                            if a < ka.len() {
                                assert(kc[a] == ka[a]) by {
                                    assert(kc.take(ka.len() as int)[a] == kc[a]);
                                }
                                if a != source {
                                    assert(ka[a] != key@);
                                    assert(vs[a] == va[a]);
                                    assert(visited@[a] == va[a]);
                                } else {
                                    assert(vs[a] == true);
                                    assert(visited@[a] == vs[a]);
                                    assert(m2.contains_key(kc[a]));
                                }
                            } else {
                                assert(!visited@[a]);
                                assert(kc[a] != key@) by {
                                    assert(kc[source as int] == key@);
                                }
                                if m.contains_key(kc[a]) {
                                    assert(kp.contains(kc[a]));
                                    let j = choose|j: int| 0 <= j < kp.len() && kp[j] == kc[a];
                                    assert(kc.take(kp.len() as int)[j] == kc[j]);
                                }
                            }
                        }
                        // pending keys
                        assert forall|a: int|
                            0 <= a < kc.len() && tv.contains_key(kc[a]) && !visited@[a] implies qe.contains(
                            #[trigger] kc[a],
                        ) by {
                            if a < ka.len() {
                                assert(kc[a] == ka[a]) by {
                                    assert(kc.take(ka.len() as int)[a] == kc[a]);
                                }
                                assert(a != source);
                                assert(a < kp.len());
                                assert(ka[a] == kp[a]);
                                assert(visited@[a] == vp[a]);
                                assert(q0.contains(kp[a]));
                                assert(kp[a] != key@) by {
                                    assert(ka[source as int] == key@);
                                }
                                assert(q1.contains(kc[a]));
                                let j = choose|j: int| 0 <= j < q1.len() && q1[j] == kc[a];
                                assert(qe[j] == q1[j]);
                            } else if a < kb.len() {
                                assert(kc[a] == kb[a]) by {
                                    assert(kc.take(kb.len() as int)[a] == kc[a]);
                                }
                                assert(keys_view(task.dependencies@).contains(kb[a]));
                                let j = choose|j: int|
                                    0 <= j < keys_view(task.dependencies@).len() && keys_view(task.dependencies@)[j]
                                        == kb[a];
                                assert(qe[q1.len() + j] == kb[a]);
                            } else {
                                assert(keys_view(task.order_dependencies@).contains(kc[a]));
                                let j = choose|j: int|
                                    0 <= j < keys_view(task.order_dependencies@).len() && keys_view(
                                        task.order_dependencies@,
                                    )[j] == kc[a];
                                assert(qe[q1.len() + keys_view(task.dependencies@).len() + j] == kc[a]);
                            }
                        }
                        // queued keys are requested or nodes
                        assert forall|j: int| 0 <= j < qe.len() implies sv.contains(#[trigger] qe[j]) || kc.contains(
                            qe[j],
                        ) by {
                            if j < q1.len() {
                                assert(qe[j] == q1[j]);
                                assert(q1[j] == q0[j + 1]);
                                if !sv.contains(q0[j + 1]) {
                                    assert(kp.contains(q0[j + 1]));
                                    let w = choose|w: int| 0 <= w < kp.len() && kp[w] == q0[j + 1];
                                    assert(kc.take(kp.len() as int)[w] == kc[w]);
                                }
                            } else if j < q1.len() + task.dependencies@.len() {
                                let i = j - q1.len();
                                assert(qe[j] == task.dependencies@[i]@);
                                assert(kb.contains(task.dependencies@[i]@));
                                let w = choose|w: int| 0 <= w < kb.len() && kb[w] == task.dependencies@[i]@;
                                assert(kc.take(kb.len() as int)[w] == kc[w]);
                            } else {
                                let i = j - q1.len() - task.dependencies@.len();
                                assert(qe[j] == task.order_dependencies@[i]@);
                                assert(kc.contains(task.order_dependencies@[i]@));
                            }
                        }
                        // requested keys
                        assert forall|k: KeyView| roots.contains(k) implies kc.contains(k) || qe.contains(k) by {
                            if kp.contains(k) {
                                let w = choose|w: int| 0 <= w < kp.len() && kp[w] == k;
                                assert(kc.take(kp.len() as int)[w] == kc[w]);
                            } else if k == key@ {
                                assert(kc[source as int] == key@);
                            } else {
                                assert(q1.contains(k));
                                let j = choose|j: int| 0 <= j < q1.len() && q1[j] == k;
                                assert(qe[j] == q1[j]);
                            }
                        }
                        assert forall|j: int| expanded.contains(j) implies m2.contains_key(#[trigger] entries@[j].0@) by {}
                        assert forall|k: KeyView| #[trigger] m2.contains_key(k) implies tv.contains_key(k) && m2[k] == tv[k] by {
                            if k == key@ {
                                assert(m2[k] == t);
                            }
                        }
                        m = m2;
                                    }
                } else {
                            }
                    },
        }
    }
    proof {
        let kc = sg.key_views();
        assert forall|a: int| 0 <= a < kc.len() implies #[trigger] targets_view(kc, out_targets(sg.edges(), a)) == (if tv.contains_key(
            kc[a],
        ) {
            deps_view(tv[kc[a]])
        } else {
            Seq::empty()
        }) by {
            if tv.contains_key(kc[a]) {
                assert(visited@[a]);
            }
        }
    }
    sg
}

/// Which nodes are waiting for a schedule: those that a start key names, or, with no start,
/// those that no edge enters.
pub open spec fn nodes_with_keys(keys: Seq<KeyView>, wanted: Seq<KeyView>) -> Seq<usize>
    decreases keys.len(),
{
    if keys.len() == 0 {
        Seq::empty()
    } else {
        let rest = nodes_with_keys(keys.drop_last(), wanted);
        if wanted.contains(keys.last()) {
            rest.push((keys.len() - 1) as usize)
        } else {
            rest
        }
    }
}

/// The roots of the graph that a build starts from: the requested keys that have a task, or,
/// with no request, every task's key.
pub open spec fn graph_roots(tasks: Map<KeyView, TaskView>, start: Option<Seq<KeyView>>) -> Set<KeyView> {
    match start {
        Some(s) => start_roots(tasks, s),
        None => tasks.dom(),
    }
}

pub open spec fn start_view(start: Option<Vec<Key>>) -> Option<Seq<KeyView>> {
    match start {
        Some(v) => Some(keys_view(v@)),
        None => None,
    }
}

/// The graph of the keys a build needs: of the requested keys and what they depend on, or,
/// with no request, of every task.
pub fn build_graph(tasks: &Tasks, start: &Option<Vec<Key>>) -> (r: SchedulerGraph)
    requires
        tasks.wf(),
    ensures
        r.wf(),
        edges_follow_tasks(tasks.view(), r.key_views(), r.edges()),
        forall|k: KeyView|
            graph_roots(tasks.view(), start_view(*start)).contains(k) ==> r.key_views().contains(k),
        reached_from(r.key_views(), r.edges(), graph_roots(tasks.view(), start_view(*start))),
{
    match start {
        Some(keys) => build_from(tasks, keys),
        None => build_all(tasks),
    }
}

/// The nodes a schedule starts from: in order of their numbers, those whose key is requested,
/// or, with no request, those that nothing depends on.
pub fn requested_nodes(sg: &SchedulerGraph, start: &Option<Vec<Key>>) -> (r: Vec<usize>)
    requires
        sg.wf(),
    ensures
        r@ == (match start_view(*start) {
            Some(s) => nodes_with_keys(sg.key_views(), s),
            None => nodes_without_incoming(sg.keys@.len(), sg.edges()),
        }),
{
    match start {
        None => sources(&sg.graph),
        Some(keys) => {
            let ghost sv = keys_view(keys@);
            let mut r: Vec<usize> = Vec::new();
            let mut i: usize = 0;
            while i < sg.keys.len()
                invariant
                    i <= sg.keys@.len(),
                    sv == keys_view(keys@),
                    r@ == nodes_with_keys(sg.key_views().take(i as int), sv),
                decreases sg.keys@.len() - i,
            {
                let mut j: usize = 0;
                let mut found = false;
                while j < keys.len()
                    invariant
                        j <= keys@.len(),
                        i < sg.keys@.len(),
                        sv == keys_view(keys@),
                        found == sv.take(j as int).contains(sg.key_views()[i as int]),
                    decreases keys@.len() - j,
                {
                    let same = keys[j].same(&sg.keys[i]);
                    proof {
                        let x = sg.key_views()[i as int];
                        let t0 = sv.take(j as int);
                        let t1 = sv.take(j + 1);
                        assert(t1 =~= t0.push(sv[j as int]));
                        assert(sv[j as int] == keys@[j as int]@);
                        if t0.contains(x) {
                            let w = choose|w: int| 0 <= w < t0.len() && t0[w] == x;
                            assert(t1[w] == x);
                        }
                        if same {
                            assert(t1[j as int] == x);
                        }
                        if t1.contains(x) && !same {
                            let w = choose|w: int| 0 <= w < t1.len() && t1[w] == x;
                            assert(w != j);
                            assert(t0[w] == x);
                        }
                    }
                    if same {
                        found = true;
                    }
                    j = j + 1;
                }
                assert(sv.take(keys@.len() as int) =~= sv);
                assert(sg.key_views().take(i + 1).drop_last() =~= sg.key_views().take(i as int));
                if found {
                    r.push(i);
                }
                i = i + 1;
            }
            assert(sg.key_views().take(sg.keys@.len() as int) =~= sg.key_views());
            r
        },
    }
}

/// How many entries are true.
pub open spec fn count_true(s: Seq<bool>) -> nat
    decreases s.len(),
{
    if s.len() == 0 {
        0
    } else {
        count_true(s.drop_last()) + if s.last() {
            1nat
        } else {
            0nat
        }
    }
}

pub proof fn lemma_count_true(s: Seq<bool>, i: int, b: bool)
    requires
        0 <= i < s.len(),
    ensures
        count_true(s) <= s.len(),
        count_true(s.update(i, b)) + (if s[i] {
            1int
        } else {
            0int
        }) == count_true(s) + (if b {
            1int
        } else {
            0int
        }),
    decreases s.len(),
{
    let u = s.update(i, b);
    if i == s.len() - 1 {
        assert(u.drop_last() =~= s.drop_last());
        lemma_count_bound(s.drop_last());
    } else {
        assert(u.drop_last() =~= s.drop_last().update(i, b));
        lemma_count_true(s.drop_last(), i, b);
    }
}

pub proof fn lemma_count_bound(s: Seq<bool>)
    ensures
        count_true(s) <= s.len(),
    decreases s.len(),
{
    if s.len() > 0 {
        lemma_count_bound(s.drop_last());
    }
}

/// Every node of `ts` is finished.
pub open spec fn all_finished(ts: Seq<usize>, finished: Seq<bool>) -> bool {
    forall|i: int| 0 <= i < ts.len() ==> finished[#[trigger] ts[i] as int]
}

/// Going through `l` in order, each waiting node whose dependencies are all finished stops
/// waiting and becomes ready: the waiting flags after, and the nodes that became ready.
pub open spec fn release(
    edges: Seq<(usize, usize)>,
    l: Seq<usize>,
    waiting: Seq<bool>,
    finished: Seq<bool>,
) -> (Seq<bool>, Seq<usize>)
    decreases l.len(),
{
    if l.len() == 0 {
        (waiting, Seq::empty())
    } else {
        let (w, r) = release(edges, l.drop_last(), waiting, finished);
        let d = l.last();
        if w[d as int] && all_finished(out_targets(edges, d as int), finished) {
            (w.update(d as int, false), r.push(d))
        } else {
            (w, r)
        }
    }
}

/// The state of a schedule: how many nodes are wanted, which are finished, which are ready to
/// run, in order, and which wait for dependencies.
pub struct BuildState {
    wanted: usize,
    finished: Vec<bool>,
    finished_count: usize,
    ready: VecDeque<usize>,
    waiting: Vec<bool>,
}

pub struct BuildStateView {
    pub wanted: nat,
    pub finished: Seq<bool>,
    pub ready: Seq<usize>,
    pub waiting: Seq<bool>,
}

impl View for BuildState {
    type V = BuildStateView;

    closed spec fn view(&self) -> BuildStateView {
        BuildStateView {
            wanted: self.wanted as nat,
            finished: self.finished@,
            ready: self.ready@,
            waiting: self.waiting@,
        }
    }
}

/// A schedule over `n` nodes with these edges is sound: a ready node's dependencies are all
/// finished, and no waiting node is finished.
pub open spec fn schedule_ok(s: BuildStateView, edges: Seq<(usize, usize)>, n: nat) -> bool {
    &&& s.finished.len() == n
    &&& s.waiting.len() == n
    &&& forall|i: int|
        0 <= i < s.ready.len() ==> #[trigger] s.ready[i] < n && all_finished(
            out_targets(edges, s.ready[i] as int),
            s.finished,
        )
    &&& forall|a: int| 0 <= a < n && #[trigger] s.waiting[a] ==> !s.finished[a]
}

impl BuildState {
    /// The count of finished nodes is kept.
    pub closed spec fn counted(&self) -> bool {
        self.finished_count == count_true(self.finished@)
    }

    pub open spec fn wf(&self, g: &SchedulerGraph) -> bool {
        &&& self.counted()
        &&& schedule_ok(self@, g.edges(), g.keys@.len())
    }

    /// A schedule over the nodes of `g` with nothing wanted yet.
    pub fn new(g: &SchedulerGraph) -> (r: BuildState)
        requires
            g.wf(),
        ensures
            r.wf(g),
            r@.wanted == 0,
            r@.finished == Seq::new(g.keys@.len(), |i: int| false),
            r@.waiting == Seq::new(g.keys@.len(), |i: int| false),
            r@.ready == Seq::<usize>::empty(),
    {
        let n = g.node_count();
        let mut finished: Vec<bool> = Vec::new();
        let mut waiting: Vec<bool> = Vec::new();
        let mut i: usize = 0;
        while i < n
            invariant
                i <= n,
                finished@ == Seq::new(i as nat, |k: int| false),
                waiting@ == Seq::new(i as nat, |k: int| false),
            decreases n - i,
        {
            finished.push(false);
            waiting.push(false);
            assert(finished@ =~= Seq::new((i + 1) as nat, |k: int| false));
            assert(waiting@ =~= Seq::new((i + 1) as nat, |k: int| false));
            i = i + 1;
        }
        proof {
            lemma_count_false(n as nat);
        }
        BuildState { wanted: 0, finished, finished_count: 0, ready: VecDeque::new(), waiting }
    }

    /// Whether `node` waits for dependencies.
    pub fn is_waiting(&self, node: usize) -> (r: bool)
        requires
            node < self@.waiting.len(),
        ensures
            r == self@.waiting[node as int],
    {
        self.waiting[node]
    }

    /// Whether every wanted node is finished.
    pub fn done(&self) -> (r: bool)
        requires
            self.counted(),
        ensures
            r == (count_true(self@.finished) == self@.wanted),
    {
        self.finished_count == self.wanted
    }

    /// The next ready node, taken off the front of the queue.
    pub fn next_ready(&mut self) -> (r: Option<usize>)
        requires
            old(self).counted(),
            count_true(old(self)@.finished) != old(self)@.wanted,
        ensures
            final(self).counted(),
            final(self)@.wanted == old(self)@.wanted,
            final(self)@.finished == old(self)@.finished,
            final(self)@.waiting == old(self)@.waiting,
            match r {
                Some(x) => old(self)@.ready.len() > 0 && x == old(self)@.ready[0] && final(self)@.ready
                    == old(self)@.ready.drop_first(),
                None => old(self)@.ready.len() == 0 && final(self)@.ready == old(self)@.ready,
            },
            handed_once(old(self)@) ==> handed_once(final(self)@) && (r matches Some(x) ==> (
            !final(self)@.ready.contains(x) && !final(self)@.waiting[x as int]
                && !final(self)@.finished[x as int])),
    {
        let r = self.ready.pop_front();
        proof {
            if r is Some {
                assert(self.ready@ =~= old(self).ready@.drop_first());
                if handed_once(old(self)@) {
                    law_next_ready_hands_out_once(old(self)@, self@, r->0);
                }
            }
        }
        r
    }

    /// Wants one more node: ready at once if it has no dependency, else waiting for them.
    pub fn add_node(&mut self, g: &SchedulerGraph, node: usize)
        requires
            g.wf(),
            old(self).wf(g),
            node < g.keys@.len(),
            !old(self)@.finished[node as int],
            old(self)@.wanted < usize::MAX,
        ensures
            final(self).wf(g),
            final(self)@.wanted == old(self)@.wanted + 1,
            final(self)@.finished == old(self)@.finished,
            if out_targets(g.edges(), node as int).len() == 0 {
                &&& final(self)@.ready == old(self)@.ready.push(node)
                &&& final(self)@.waiting == old(self)@.waiting
            } else {
                &&& final(self)@.ready == old(self)@.ready
                &&& final(self)@.waiting == old(self)@.waiting.update(node as int, true)
            },
            handed_once(old(self)@) && !old(self)@.ready.contains(node) && !old(self)@.waiting[node as int]
                ==> handed_once(final(self)@),
    {
        let ghost before = self@;
        self.wanted = self.wanted + 1;
        let deps = neighbors(&g.graph, node, true);
        proof {
            assert(deps@.len() == out_targets(g.edges(), node as int).reverse().len());
        }
        if deps.len() == 0 {
            self.ready.push_back(node);
            proof {
                assert(out_targets(g.edges(), node as int).len() == 0);
                assert forall|i: int| 0 <= i < self@.ready.len() implies #[trigger] self@.ready[i] < g.keys@.len()
                    && all_finished(out_targets(g.edges(), self@.ready[i] as int), self@.finished) by {
                    if i < old(self)@.ready.len() {
                        assert(self@.ready[i] == old(self)@.ready[i]);
                    } else {
                        assert(self@.ready[i] == node);
                    }
                }
            }
        } else {
            self.waiting.set(node, true);
            proof {
                assert forall|a: int| 0 <= a < g.keys@.len() && #[trigger] self@.waiting[a] implies !self@.finished[a] by {
                    if a != node {
                        assert(old(self)@.waiting[a]);
                    }
                }
            }
        }
        proof {
            if handed_once(before) && !before.ready.contains(node) && !before.waiting[node as int] {
                law_add_node_keeps_handed_once(before, self@, g.edges(), g.keys@.len(), node);
            }
        }
    }
}

pub proof fn lemma_count_false(k: nat)
    ensures
        count_true(Seq::new(k, |j: int| false)) == 0,
    decreases k,
{
    if k > 0 {
        assert(Seq::new(k, |j: int| false).drop_last() =~= Seq::new((k - 1) as nat, |j: int| false));
        lemma_count_false((k - 1) as nat);
    }
}

/// A chain of failures: each node after the first waits and depends on the one before it.
pub open spec fn fail_path(edges: Seq<(usize, usize)>, waiting: Seq<bool>, p: Seq<usize>) -> bool {
    &&& p.len() >= 2
    &&& forall|i: int|
        1 <= i < p.len() ==> (#[trigger] p[i] as int) < waiting.len() && waiting[p[i] as int] && has_edge(
            edges,
            p[i] as int,
            p[i - 1] as int,
        )
}

/// A failure chain from `d` through nodes that waited, led by a waiting `d` that depends on
/// `node`, is a failure chain from `node`.
pub proof fn lemma_fail_path_extend(
    edges: Seq<(usize, usize)>,
    w0: Seq<bool>,
    wm: Seq<bool>,
    node: usize,
    d: usize,
    a: usize,
)
    requires
        wm.len() == w0.len(),
        forall|x: int| 0 <= x < wm.len() && #[trigger] wm[x] ==> w0[x],
        (d as int) < w0.len(),
        w0[d as int],
        has_edge(edges, d as int, node as int),
        fails_with(edges, wm, d, a),
    ensures
        fails_with(edges, w0, node, a),
{
    let q = choose|q: Seq<usize>| #[trigger] fail_path(edges, wm, q) && q[0] == d && q.last() == a;
    let p = seq![node].add(q);
    assert forall|k: int| 1 <= k < p.len() implies (#[trigger] p[k] as int) < w0.len() && w0[p[k] as int]
        && has_edge(edges, p[k] as int, p[k - 1] as int) by {
        assert(p[k] == q[k - 1]);
        if k == 1 {
            assert(p[0] == node);
        } else {
            assert(wm[q[k - 1] as int]);
            assert(p[k - 1] == q[k - 2]);
        }
    }
    assert(fail_path(edges, w0, p));
    assert(p.last() == q.last());
}

/// The failure of `node` reaches `a` through waiting nodes.
pub open spec fn fails_with(edges: Seq<(usize, usize)>, waiting: Seq<bool>, node: usize, a: usize) -> bool {
    exists|p: Seq<usize>| #[trigger] fail_path(edges, waiting, p) && p[0] == node && p.last() == a
}

pub proof fn lemma_in_sources_edges(edges: Seq<(usize, usize)>, t: int, a: usize)
    ensures
        in_sources(edges, t).contains(a) <==> has_edge(edges, a as int, t),
    decreases edges.len(),
{
    if edges.len() > 0 {
        let d = edges.drop_last();
        lemma_in_sources_edges(d, t, a);
        let l = edges.last();
        let p = in_sources(d, t);
        if in_sources(edges, t).contains(a) {
            let j = choose|j: int| 0 <= j < in_sources(edges, t).len() && in_sources(edges, t)[j] == a;
            if j < p.len() {
                assert(p[j] == a);
                let e = choose|e: int| 0 <= e < d.len() && (#[trigger] d[e]).0 == a && d[e].1 == t;
                assert(edges[e] == d[e]);
            } else {
                assert(edges[edges.len() - 1] == l);
            }
        }
        if has_edge(edges, a as int, t) {
            let e = choose|e: int| 0 <= e < edges.len() && (#[trigger] edges[e]).0 == a && edges[e].1 == t;
            if e < d.len() {
                assert(d[e] == edges[e]);
                assert(p.contains(a));
                let j = choose|j: int| 0 <= j < p.len() && p[j] == a;
                assert(in_sources(edges, t)[j] == a);
            } else {
                assert(in_sources(edges, t) == p.push(a));
                assert(in_sources(edges, t)[p.len() as int] == a);
            }
        }
    }
}

impl BuildState {
    /// Fails every node that waits, directly or through other waiting nodes, on `node`: each
    /// stops waiting and is finished.
    #[verifier::rlimit(60)]
    #[verifier::spinoff_prover]
    fn fail_dependents(&mut self, g: &SchedulerGraph, node: usize)
        requires
            g.wf(),
            old(self).wf(g),
            node < g.keys@.len(),
        ensures
            final(self).wf(g),
            final(self)@.wanted == old(self)@.wanted,
            final(self)@.ready == old(self)@.ready,
            forall|a: int| 0 <= a < g.keys@.len() && #[trigger] final(self)@.waiting[a] ==> old(self)@.waiting[a],
            forall|a: int|
                0 <= a < g.keys@.len() ==> #[trigger] final(self)@.finished[a] == (old(self)@.finished[a] || (
                old(self)@.waiting[a] && !final(self)@.waiting[a])),
            forall|a: int|
                0 <= a < g.keys@.len() && old(self)@.waiting[a] && !#[trigger] final(self)@.waiting[a]
                    ==> fails_with(g.edges(), old(self)@.waiting, node, a as usize),
            count_true(final(self)@.waiting) <= count_true(old(self)@.waiting),
            forall|a: int| 0 <= a < g.keys@.len() && has_edge(g.edges(), a, node as int) ==> !#[trigger] final(self)@.waiting[a],
            forall|a: int, t: int|
                0 <= a < g.keys@.len() && 0 <= t < g.keys@.len() && old(self)@.waiting[t] && !final(self)@.waiting[t]
                    && #[trigger] has_edge(g.edges(), a, t) ==> !final(self)@.waiting[a],
        decreases count_true(old(self)@.waiting),
    {
        let ghost n = g.keys@.len();
        let ghost edges = g.edges();
        let ghost w0 = self@.waiting;
        let ghost f0 = self@.finished;
        let dependents = neighbors(&g.graph, node, false);
        proof {
            lemma_out_targets_within(edges, node as int, n);
        }
        let mut i: usize = 0;
        while i < dependents.len()
            invariant
                g.wf(),
                self.wf(g),
                n == g.keys@.len(),
                edges == g.edges(),
                node < n,
                w0.len() == n,
                f0.len() == n,
                dependents@ == in_sources(edges, node as int).reverse(),
                forall|k: int| 0 <= k < dependents@.len() ==> dependents@[k] < n,
                i <= dependents@.len(),
                self@.wanted == old(self)@.wanted,
                self@.ready == old(self)@.ready,
                w0 == old(self)@.waiting,
                f0 == old(self)@.finished,
                count_true(self@.waiting) <= count_true(w0),
                forall|a: int| 0 <= a < n && #[trigger] self@.waiting[a] ==> w0[a],
                forall|a: int| 0 <= a < n ==> #[trigger] self@.finished[a] == (f0[a] || (w0[a] && !self@.waiting[a])),
                forall|a: int|
                    0 <= a < n && w0[a] && !#[trigger] self@.waiting[a] ==> fails_with(edges, w0, node, a as usize),
                forall|k: int| 0 <= k < i ==> !self@.waiting[#[trigger] dependents@[k] as int],
                forall|a: int, t: int|
                    0 <= a < n && 0 <= t < n && w0[t] && !self@.waiting[t] && #[trigger] has_edge(edges, a, t)
                        ==> !self@.waiting[a],
            decreases dependents@.len() - i,
        {
            let d = dependents[i];
            if self.waiting[d] {
                let ghost ws = self@.waiting;
                let ghost fs = self@.finished;
                proof {
                    assert(!fs[d as int]);
                    lemma_count_true(ws, d as int, false);
                    lemma_count_true(fs, d as int, true);
                    lemma_count_bound(fs.update(d as int, true));
                    assert(self.finished@.len() == self.finished.len());
                }
                self.waiting.set(d, false);
                self.finished.set(d, true);
                self.finished_count = self.finished_count + 1;
                proof {
                    assert forall|i2: int| 0 <= i2 < self@.ready.len() implies #[trigger] self@.ready[i2] < n
                        && all_finished(out_targets(edges, self@.ready[i2] as int), self@.finished) by {
                        let r = self@.ready[i2];
                        assert(all_finished(out_targets(edges, r as int), fs));
                        lemma_out_targets_within(edges, r as int, n);
                        assert forall|j: int| 0 <= j < out_targets(edges, r as int).len() implies self@.finished[#[trigger] out_targets(
                            edges,
                            r as int,
                        )[j] as int] by {
                            assert(fs[out_targets(edges, r as int)[j] as int]);
                        }
                    }
                }
                let ghost wm = self@.waiting;
                self.fail_dependents(g, d);
                proof {
                    let wf2 = self@.waiting;
                    assert(in_sources(edges, node as int).contains(d)) by {
                        let j = (dependents@.len() - 1 - i) as int;
                        assert(in_sources(edges, node as int)[j] == dependents@[i as int]);
                    }
                    lemma_in_sources_edges(edges, node as int, d);
                    assert forall|a: int| 0 <= a < n && w0[a] && !#[trigger] wf2[a] implies fails_with(
                        edges,
                        w0,
                        node,
                        a as usize,
                    ) by {
                        if wm[a] {
                            assert(fails_with(edges, wm, d, a as usize));
                            lemma_fail_path_extend(edges, w0, wm, node, d, a as usize);
                        } else if a == d {
                            let p = seq![node, d];
                            assert(fail_path(edges, w0, p));
                        } else {
                            assert(ws[a] == wm[a]);
                        }
                    }
                    assert forall|a: int, t: int|
                        0 <= a < n && 0 <= t < n && w0[t] && !wf2[t] && #[trigger] has_edge(edges, a, t) implies !wf2[a] by {
                        if t == d {
                        } else if wm[t] {
                        } else {
                            assert(!ws[t]);
                        }
                    }
                    assert forall|a: int| 0 <= a < n implies #[trigger] self@.finished[a] == (f0[a] || (w0[a]
                        && !self@.waiting[a])) by {
                        if a == d {
                        } else {
                            assert(fs[a] == (f0[a] || (w0[a] && !ws[a])));
                        }
                    }
                    assert forall|k: int| 0 <= k < i + 1 implies !self@.waiting[#[trigger] dependents@[k] as int] by {
                        if k < i {
                            assert(!ws[dependents@[k] as int]);
                        }
                    }
                }
            }
            i = i + 1;
        }
        proof {
            assert forall|a: int| 0 <= a < n && has_edge(edges, a, node as int) implies !#[trigger] self@.waiting[a] by {
                lemma_in_sources_edges(edges, node as int, a as usize);
                let src = in_sources(edges, node as int);
                let j = choose|j: int| 0 <= j < src.len() && src[j] == a;
                assert(dependents@[(src.len() - 1 - j) as int] == a);
            }
        }
    }
}

impl BuildState {
    /// Whether every dependency of `d` is finished.
    fn dependencies_finished(&self, g: &SchedulerGraph, d: usize) -> (r: bool)
        requires
            g.wf(),
            self.wf(g),
            d < g.keys@.len(),
        ensures
            r == all_finished(out_targets(g.edges(), d as int), self@.finished),
    {
        let deps = neighbors(&g.graph, d, true);
        let ghost ts = out_targets(g.edges(), d as int);
        proof {
            lemma_out_targets_within(g.edges(), d as int, g.keys@.len());
        }
        let mut j: usize = 0;
        while j < deps.len()
            invariant
                deps@ == ts.reverse(),
                ts == out_targets(g.edges(), d as int),
                j <= deps@.len(),
                self.wf(g),
                forall|i: int| 0 <= i < ts.len() ==> ts[i] < g.keys@.len(),
                forall|k: int| 0 <= k < j ==> self@.finished[#[trigger] deps@[k] as int],
            decreases deps@.len() - j,
        {
            if !self.finished[deps[j]] {
                assert(ts[ts.len() - 1 - j] == deps@[j as int]);
                assert(!self@.finished[ts[ts.len() - 1 - j] as int]);
                return false;
            }
            j = j + 1;
        }
        assert forall|i: int| 0 <= i < ts.len() implies self@.finished[#[trigger] ts[i] as int] by {
            assert(deps@[ts.len() - 1 - i] == ts[i]);
        }
        true
    }

    /// Releases the dependents of a node that succeeded: each that waits, and whose
    /// dependencies are now all finished, becomes ready, in the order petgraph lists them.
    fn release_dependents(&mut self, g: &SchedulerGraph, node: usize)
        requires
            g.wf(),
            old(self).wf(g),
            node < g.keys@.len(),
        ensures
            final(self).wf(g),
            final(self)@.wanted == old(self)@.wanted,
            final(self)@.finished == old(self)@.finished,
            final(self)@.waiting == release(
                g.edges(),
                in_sources(g.edges(), node as int).reverse(),
                old(self)@.waiting,
                old(self)@.finished,
            ).0,
            final(self)@.ready == old(self)@.ready + release(
                g.edges(),
                in_sources(g.edges(), node as int).reverse(),
                old(self)@.waiting,
                old(self)@.finished,
            ).1,
    {
        let ghost n = g.keys@.len();
        let ghost edges = g.edges();
        let dependents = neighbors(&g.graph, node, false);
        proof {
            lemma_out_targets_within(edges, node as int, n);
        }
        let mut i: usize = 0;
        while i < dependents.len()
            invariant
                g.wf(),
                self.wf(g),
                n == g.keys@.len(),
                edges == g.edges(),
                dependents@ == in_sources(edges, node as int).reverse(),
                forall|k: int| 0 <= k < dependents@.len() ==> dependents@[k] < n,
                i <= dependents@.len(),
                self@.wanted == old(self)@.wanted,
                self@.finished == old(self)@.finished,
                self@.waiting == release(edges, dependents@.take(i as int), old(self)@.waiting, old(self)@.finished).0,
                self@.ready == old(self)@.ready + release(
                    edges,
                    dependents@.take(i as int),
                    old(self)@.waiting,
                    old(self)@.finished,
                ).1,
            decreases dependents@.len() - i,
        {
            let d = dependents[i];
            proof {
                assert(dependents@.take(i + 1).drop_last() =~= dependents@.take(i as int));
                assert(dependents@.take(i + 1).last() == d);
            }
            if self.waiting[d] && self.dependencies_finished(g, d) {
                let ghost r0 = self@.ready;
                self.waiting.set(d, false);
                self.ready.push_back(d);
                proof {
                    assert(self@.ready =~= old(self)@.ready + release(
                        edges,
                        dependents@.take(i + 1),
                        old(self)@.waiting,
                        old(self)@.finished,
                    ).1);
                    assert forall|k: int| 0 <= k < self@.ready.len() implies #[trigger] self@.ready[k] < n
                        && all_finished(out_targets(edges, self@.ready[k] as int), self@.finished) by {
                        if k < r0.len() {
                            assert(self@.ready[k] == r0[k]);
                        }
                    }
                    assert forall|a: int| 0 <= a < n && #[trigger] self@.waiting[a] implies !self@.finished[a] by {
                        assert(a != d);
                    }
                }
            }
            i = i + 1;
        }
        assert(dependents@.take(dependents@.len() as int) =~= dependents@);
    }

    /// Records that `node` finished, having succeeded or failed. On success, the dependents
    /// whose dependencies are now all finished become ready; on failure, every node that waits
    /// on it, directly or through other waiting nodes, fails and is finished too.
    pub fn finish_node(&mut self, g: &SchedulerGraph, node: usize, succeeded: bool)
        requires
            g.wf(),
            old(self).wf(g),
            node < g.keys@.len(),
            !old(self)@.waiting[node as int],
        ensures
            final(self).wf(g),
            final(self)@.wanted == old(self)@.wanted,
            succeeded ==> {
                let f1 = old(self)@.finished.update(node as int, true);
                let rel = release(
                    g.edges(),
                    in_sources(g.edges(), node as int).reverse(),
                    old(self)@.waiting,
                    f1,
                );
                &&& final(self)@.finished == f1
                &&& final(self)@.waiting == rel.0
                &&& final(self)@.ready == old(self)@.ready + rel.1
            },
            !succeeded ==> {
                let f1 = old(self)@.finished.update(node as int, true);
                &&& final(self)@.ready == old(self)@.ready
                &&& forall|a: int|
                    0 <= a < g.keys@.len() && #[trigger] final(self)@.waiting[a] ==> old(self)@.waiting[a]
                &&& forall|a: int|
                    0 <= a < g.keys@.len() ==> #[trigger] final(self)@.finished[a] == (f1[a] || (
                    old(self)@.waiting[a] && !final(self)@.waiting[a]))
                &&& forall|a: int|
                    0 <= a < g.keys@.len() && old(self)@.waiting[a] && !#[trigger] final(self)@.waiting[a]
                        ==> fails_with(g.edges(), old(self)@.waiting, node, a as usize)
                &&& forall|a: int|
                    0 <= a < g.keys@.len() && has_edge(g.edges(), a, node as int)
                        ==> !#[trigger] final(self)@.waiting[a]
                &&& forall|a: int, t: int|
                    0 <= a < g.keys@.len() && 0 <= t < g.keys@.len() && old(self)@.waiting[t]
                        && !final(self)@.waiting[t] && #[trigger] has_edge(g.edges(), a, t)
                        ==> !final(self)@.waiting[a]
            },
            handed_once(old(self)@) && !old(self)@.ready.contains(node) ==> handed_once(final(self)@),
    {
        let ghost fs = self@.finished;
        if !self.finished[node] {
            proof {
                lemma_count_true(fs, node as int, true);
                lemma_count_bound(fs.update(node as int, true));
                assert(self.finished@.len() == self.finished.len());
            }
            self.finished.set(node, true);
            self.finished_count = self.finished_count + 1;
        }
        proof {
            assert(self@.finished =~= fs.update(node as int, true));
            let n = g.keys@.len();
            assert forall|k: int| 0 <= k < self@.ready.len() implies #[trigger] self@.ready[k] < n && all_finished(
                out_targets(g.edges(), self@.ready[k] as int),
                self@.finished,
            ) by {
                let r = self@.ready[k];
                assert(self@.ready == old(self)@.ready);
                assert(old(self)@.ready[k] == r);
                assert(all_finished(out_targets(g.edges(), r as int), fs));
                lemma_out_targets_within(g.edges(), r as int, n);
                assert forall|j: int| 0 <= j < out_targets(g.edges(), r as int).len() implies self@.finished[#[trigger] out_targets(
                    g.edges(),
                    r as int,
                )[j] as int] by {
                    assert(fs[out_targets(g.edges(), r as int)[j] as int]);
                }
            }
        }
        let ghost before = old(self)@;
        if succeeded {
            self.release_dependents(g, node);
        } else {
            self.fail_dependents(g, node);
        }
        proof {
            if handed_once(before) && !before.ready.contains(node) {
                law_finish_keeps_handed_once(before, self@, g.edges(), g.keys@.len(), node, succeeded);
            }
        }
    }
}

/// The nodes of `order` without dependencies, in order.
pub open spec fn sinks(edges: Seq<(usize, usize)>, order: Seq<usize>) -> Seq<usize>
    decreases order.len(),
{
    if order.len() == 0 {
        Seq::empty()
    } else if out_targets(edges, order.last() as int).len() == 0 {
        sinks(edges, order.drop_last()).push(order.last())
    } else {
        sinks(edges, order.drop_last())
    }
}

/// Node `a` is one of `order`.
pub open spec fn in_order(order: Seq<usize>, a: int) -> bool {
    exists|j: int| 0 <= j < order.len() && order[j] == a
}

/// The schedule after wanting each node of `order` in turn, over `n` nodes.
pub open spec fn planned(edges: Seq<(usize, usize)>, n: nat, order: Seq<usize>) -> BuildStateView {
    BuildStateView {
        wanted: order.len(),
        finished: Seq::new(n, |a: int| false),
        ready: sinks(edges, order),
        waiting: Seq::new(n, |a: int| in_order(order, a) && out_targets(edges, a).len() > 0),
    }
}

/// A scheduler that runs up to `parallelism` commands at once, each once all that it depends on
/// has finished.
#[derive(Debug)]
pub struct ParallelTopoScheduler {
    parallelism: usize,
}

impl ParallelTopoScheduler {
    pub fn new(parallelism: usize) -> (r: Self)
        ensures
            r.parallelism() == parallelism,
    {
        ParallelTopoScheduler { parallelism }
    }

    pub closed spec fn parallelism(&self) -> usize {
        self.parallelism
    }

    /// How many commands may run at once.
    pub fn max_parallel(&self) -> (r: usize)
        ensures
            r == self.parallelism(),
    {
        self.parallelism
    }

    /// The graph of what a build needs, and its schedule before anything runs: the nodes that a
    /// depth-first walk from the requested nodes yields, in post-order, are wanted; those without
    /// dependencies are ready, the others wait.
    pub fn plan(&self, tasks: &Tasks, start: &Option<Vec<Key>>) -> (r: (SchedulerGraph, BuildState))
        requires
            tasks.wf(),
        ensures
            r.0.wf(),
            edges_follow_tasks(tasks.view(), r.0.key_views(), r.0.edges()),
            forall|k: KeyView|
                graph_roots(tasks.view(), start_view(*start)).contains(k) ==> r.0.key_views().contains(k),
            reached_from(r.0.key_views(), r.0.edges(), graph_roots(tasks.view(), start_view(*start))),
            r.1.wf(&r.0),
            handed_once(r.1@),
            r.1@ == planned(
                r.0.edges(),
                r.0.keys@.len(),
                dfs_post_order(
                    r.0.keys@.len(),
                    r.0.edges(),
                    match start_view(*start) {
                        Some(s) => nodes_with_keys(r.0.key_views(), s),
                        None => nodes_without_incoming(r.0.keys@.len(), r.0.edges()),
                    },
                ),
            ),
    {
        let g = build_graph(tasks, start);
        let requested = requested_nodes(&g, start);
        proof {
            assert forall|i: int| 0 <= i < requested@.len() implies requested@[i] < graph_nodes(g.graph).len() by {
                match start_view(*start) {
                    Some(s) => lemma_nodes_with_keys_within(g.key_views(), s),
                    None => lemma_without_incoming_within(g.keys@.len(), g.edges()),
                }
            }
        }
        let order = post_order(&g.graph, &requested);
        let mut state = BuildState::new(&g);
        let ghost n = g.keys@.len();
        let ghost edges = g.edges();
        let mut i: usize = 0;
        assert(state@.waiting =~= planned(edges, n, order@.take(0)).waiting);
        assert(sinks(edges, order@.take(0)) =~= Seq::<usize>::empty());
        while i < order.len()
            invariant
                g.wf(),
                n == g.keys@.len(),
                edges == g.edges(),
                i <= order@.len(),
                order@.no_duplicates(),
                forall|k: int| 0 <= k < order@.len() ==> order@[k] < n,
                state.wf(&g),
                handed_once(state@),
                state@ == planned(edges, n, order@.take(i as int)),
            decreases order@.len() - i,
        {
            let node = order[i];
            let ghost before = state@;
            proof {
                assert(order@.take(i + 1).drop_last() =~= order@.take(i as int));
                assert(!in_order(order@.take(i as int), node as int)) by {
                    if in_order(order@.take(i as int), node as int) {
                        let j = choose|j: int| 0 <= j < i && order@.take(i as int)[j] == node;
                        assert(order@[j] == order@[i as int]);
                    }
                }
                if before.ready.contains(node) {
                    let j = choose|j: int| 0 <= j < before.ready.len() && before.ready[j] == node;
                    lemma_sinks_in_order(edges, order@.take(i as int), j);
                }
            }
            state.add_node(&g, node);
            proof {
                law_add_node_keeps_handed_once(before, state@, edges, n, node);
                let t = order@.take(i + 1);
                let t0 = order@.take(i as int);
                assert(t.last() == node);
                assert forall|a: int| 0 <= a < n implies #[trigger] state@.waiting[a] == (in_order(t, a) && out_targets(
                    edges,
                    a,
                ).len() > 0) by {
                    if in_order(t, a) && a != node {
                        let j = choose|j: int| 0 <= j < t.len() && t[j] == a;
                        assert(t0[j] == a);
                    }
                    if in_order(t0, a) {
                        let j = choose|j: int| 0 <= j < t0.len() && t0[j] == a;
                        assert(t[j] == a);
                    }
                    if a == node {
                        assert(t[i as int] == node);
                    }
                }
                assert(state@.waiting =~= planned(edges, n, t).waiting);
                assert(state@.finished =~= planned(edges, n, t).finished);
            }
            i = i + 1;
        }
        assert(order@.take(order@.len() as int) =~= order@);
        (g, state)
    }
}

pub proof fn lemma_nodes_with_keys_within(keys: Seq<KeyView>, wanted: Seq<KeyView>)
    ensures
        forall|i: int|
            0 <= i < nodes_with_keys(keys, wanted).len() ==> nodes_with_keys(keys, wanted)[i] < keys.len(),
    decreases keys.len(),
{
    if keys.len() > 0 {
        lemma_nodes_with_keys_within(keys.drop_last(), wanted);
        let rest = nodes_with_keys(keys.drop_last(), wanted);
        assert forall|i: int| 0 <= i < nodes_with_keys(keys, wanted).len() implies nodes_with_keys(keys, wanted)[i]
            < keys.len() by {
            if i < rest.len() {
                assert(nodes_with_keys(keys, wanted)[i] == rest[i]);
            }
        }
    }
}

pub proof fn lemma_without_incoming_within(n: nat, edges: Seq<(usize, usize)>)
    ensures
        forall|i: int|
            0 <= i < nodes_without_incoming(n, edges).len() ==> nodes_without_incoming(n, edges)[i] < n,
    decreases n,
{
    if n > 0 {
        lemma_without_incoming_within((n - 1) as nat, edges);
        let rest = nodes_without_incoming((n - 1) as nat, edges);
        assert forall|i: int| 0 <= i < nodes_without_incoming(n, edges).len() implies nodes_without_incoming(
            n,
            edges,
        )[i] < n by {
            if i < rest.len() {
                assert(nodes_without_incoming(n, edges)[i] == rest[i]);
            }
        }
    }
}

/// A node is handed out only once everything it depends on has finished: in every state that
/// the schedule's operations keep sound, each ready node's dependencies are finished, and a
/// waiting node is not.
pub proof fn law_ready_after_dependencies(s: BuildStateView, edges: Seq<(usize, usize)>, n: nat, i: int)
    requires
        schedule_ok(s, edges, n),
        0 <= i < s.ready.len(),
    ensures
        forall|k: int|
            0 <= k < out_targets(edges, s.ready[i] as int).len() ==> s.finished[#[trigger] out_targets(
                edges,
                s.ready[i] as int,
            )[k] as int],
        (s.ready[i] as int) < n,
{
}

/// What the schedule does next with a node it took from the ready queue.
#[derive(Debug, PartialEq, Eq, Structural, Clone, Copy)]
pub enum NodeStep {
    /// Nothing runs: the node is finished at once, successfully.
    Finish,
    /// Ask the rebuilder whether the node's task needs its command.
    AskRebuilder,
    /// Run the command; the node is finished when it ends.
    Run,
    /// The rebuilder cannot look at the node's key.
    Refuse,
}

/// The next step for a ready node, given whether it has a task, whether the rebuilder can take
/// that task, and, once asked, whether the rebuilder wants its command run: a node without a
/// task, or whose task is up to date, is finished at once; a task the rebuilder cannot take is
/// refused.
pub fn node_step(has_task: bool, can_build: bool, needs_command: Option<bool>) -> (s: NodeStep)
    ensures
        !has_task ==> s == NodeStep::Finish,
        has_task && !can_build ==> s == NodeStep::Refuse,
        has_task && can_build ==> s == match needs_command {
            None => NodeStep::AskRebuilder,
            Some(true) => NodeStep::Run,
            Some(false) => NodeStep::Finish,
        },
{
    if !has_task {
        NodeStep::Finish
    } else if !can_build {
        NodeStep::Refuse
    } else {
        match needs_command {
            None => NodeStep::AskRebuilder,
            Some(true) => NodeStep::Run,
            Some(false) => NodeStep::Finish,
        }
    }
}

/// What `sinks` keeps is taken from the order.
pub proof fn lemma_sinks_in_order(edges: Seq<(usize, usize)>, order: Seq<usize>, j: int)
    requires
        0 <= j < sinks(edges, order).len(),
    ensures
        in_order(order, sinks(edges, order)[j] as int),
    decreases order.len(),
{
    let p = order.drop_last();
    let sp = sinks(edges, p);
    if out_targets(edges, order.last() as int).len() == 0 && j == sp.len() {
        assert(order[order.len() - 1] == order.last());
    } else {
        lemma_sinks_in_order(edges, p, j);
        let k = choose|k: int| 0 <= k < p.len() && p[k] == sp[j];
        assert(order[k] == p[k]);
    }
}

/// No node is ready twice, and a ready node neither waits nor is finished: a node is handed out
/// at most once.
pub open spec fn handed_once(s: BuildStateView) -> bool {
    &&& forall|i: int, j: int|
        #![trigger s.ready[i], s.ready[j]]
        0 <= i < j < s.ready.len() ==> s.ready[i] != s.ready[j]
    &&& forall|i: int|
        0 <= i < s.ready.len() ==> !s.waiting[#[trigger] s.ready[i] as int] && !s.finished[s.ready[i] as int]
}

/// The nodes that `release` makes ready each waited before and wait no more, none twice; and it
/// makes no node wait.
pub proof fn lemma_release_facts(
    edges: Seq<(usize, usize)>,
    l: Seq<usize>,
    w: Seq<bool>,
    f: Seq<bool>,
)
    requires
        forall|k: int| 0 <= k < l.len() ==> #[trigger] l[k] < w.len(),
    ensures
        release(edges, l, w, f).0.len() == w.len(),
        forall|a: int| 0 <= a < w.len() && #[trigger] release(edges, l, w, f).0[a] ==> w[a],
        forall|k: int|
            0 <= k < release(edges, l, w, f).1.len() ==> (#[trigger] release(edges, l, w, f).1[k]) < w.len()
                && w[release(edges, l, w, f).1[k] as int] && !release(edges, l, w, f).0[release(
                edges,
                l,
                w,
                f,
            ).1[k] as int],
        forall|i: int, j: int|
            #![trigger release(edges, l, w, f).1[i], release(edges, l, w, f).1[j]]
            0 <= i < j < release(edges, l, w, f).1.len() ==> release(edges, l, w, f).1[i] != release(
                edges,
                l,
                w,
                f,
            ).1[j],
    decreases l.len(),
{
    if l.len() > 0 {
        let pl = l.drop_last();
        assert forall|k: int| 0 <= k < pl.len() implies #[trigger] pl[k] < w.len() by {
            assert(pl[k] == l[k]);
        }
        lemma_release_facts(edges, pl, w, f);
        let (w1, r1) = release(edges, pl, w, f);
        let d = l.last();
        assert(d == l[l.len() - 1]);
        if w1[d as int] && all_finished(out_targets(edges, d as int), f) {
            let r = r1.push(d);
            let w2 = w1.update(d as int, false);
            assert(release(edges, l, w, f) == (w2, r));
            assert forall|k: int| 0 <= k < r.len() implies (#[trigger] r[k]) < w.len() && w[r[k] as int]
                && !w2[r[k] as int] by {
                if k < r1.len() {
                    assert(r[k] == r1[k]);
                }
            }
            assert forall|i: int, j: int| 0 <= i < j < r.len() implies #[trigger] r[i] != #[trigger] r[j] by {
                if j < r1.len() {
                    assert(r[i] == r1[i] && r[j] == r1[j]);
                } else {
                    assert(r[i] == r1[i]);
                    assert(!w1[r1[i] as int]);
                }
            }
        }
    }
}

/// Taking the next ready node keeps each node handed out at most once, and the node taken is no
/// longer ready, waiting or finished.
pub proof fn law_next_ready_hands_out_once(before: BuildStateView, after: BuildStateView, x: usize)
    requires
        handed_once(before),
        before.ready.len() > 0,
        x == before.ready[0],
        after.ready == before.ready.drop_first(),
        after.finished == before.finished,
        after.waiting == before.waiting,
    ensures
        handed_once(after),
        !after.ready.contains(x),
        !after.waiting[x as int],
        !after.finished[x as int],
{
    assert forall|i: int, j: int| 0 <= i < j < after.ready.len() implies #[trigger] after.ready[i]
        != #[trigger] after.ready[j] by {
        assert(after.ready[i] == before.ready[i + 1] && after.ready[j] == before.ready[j + 1]);
    }
    assert forall|i: int| 0 <= i < after.ready.len() implies !after.waiting[#[trigger] after.ready[i] as int]
        && !after.finished[after.ready[i] as int] by {
        assert(after.ready[i] == before.ready[i + 1]);
    }
    if after.ready.contains(x) {
        let i = choose|i: int| 0 <= i < after.ready.len() && after.ready[i] == x;
        assert(before.ready[i + 1] == before.ready[0]);
    }
}

/// Wanting a node that is neither ready, waiting nor finished keeps each node handed out at
/// most once.
pub proof fn law_add_node_keeps_handed_once(
    before: BuildStateView,
    after: BuildStateView,
    edges: Seq<(usize, usize)>,
    n: nat,
    node: usize,
)
    requires
        handed_once(before),
        schedule_ok(before, edges, n),
        node < n,
        !before.ready.contains(node),
        !before.waiting[node as int],
        !before.finished[node as int],
        after.finished == before.finished,
        if out_targets(edges, node as int).len() == 0 {
            &&& after.ready == before.ready.push(node)
            &&& after.waiting == before.waiting
        } else {
            &&& after.ready == before.ready
            &&& after.waiting == before.waiting.update(node as int, true)
        },
    ensures
        handed_once(after),
{
    assert forall|i: int| 0 <= i < after.ready.len() implies !after.waiting[#[trigger] after.ready[i] as int]
        && !after.finished[after.ready[i] as int] by {
        if i < before.ready.len() {
            assert(after.ready[i] == before.ready[i]);
            assert(before.ready[i] < n);
            if before.ready[i] == node {
                assert(before.ready.contains(node));
            }
            if out_targets(edges, node as int).len() != 0 {
                assert(after.waiting[before.ready[i] as int] == before.waiting[before.ready[i] as int]);
            }
        } else {
            assert(after.ready[i] == node);
        }
    }
    assert forall|i: int, j: int| 0 <= i < j < after.ready.len() implies #[trigger] after.ready[i]
        != #[trigger] after.ready[j] by {
        assert(after.ready[i] == before.ready[i]);
        if j < before.ready.len() {
            assert(after.ready[j] == before.ready[j]);
        }
    }
}

/// Finishing a node that is no longer ready keeps each node handed out at most once, whether
/// it succeeded (its released dependents become ready) or failed (the nodes that wait on it are
/// finished); and the node is finished, so it is never handed out again.
pub proof fn law_finish_keeps_handed_once(
    before: BuildStateView,
    after: BuildStateView,
    edges: Seq<(usize, usize)>,
    n: nat,
    node: usize,
    succeeded: bool,
)
    requires
        handed_once(before),
        schedule_ok(before, edges, n),
        edges_within(edges, n),
        node < n,
        !before.waiting[node as int],
        !before.ready.contains(node),
        after.finished.len() == n,
        after.waiting.len() == n,
        succeeded ==> {
            let f1 = before.finished.update(node as int, true);
            let rel = release(edges, in_sources(edges, node as int).reverse(), before.waiting, f1);
            &&& after.finished == f1
            &&& after.waiting == rel.0
            &&& after.ready == before.ready + rel.1
        },
        !succeeded ==> {
            let f1 = before.finished.update(node as int, true);
            &&& after.ready == before.ready
            &&& forall|a: int| 0 <= a < n && #[trigger] after.waiting[a] ==> before.waiting[a]
            &&& forall|a: int|
                0 <= a < n ==> #[trigger] after.finished[a] == (f1[a] || (before.waiting[a]
                    && !after.waiting[a]))
        },
    ensures
        handed_once(after),
        after.finished[node as int],
{
    let f1 = before.finished.update(node as int, true);
    assert forall|i: int| 0 <= i < before.ready.len() implies #[trigger] before.ready[i] != node by {
        if before.ready[i] == node {
            assert(before.ready.contains(node));
        }
    }
    if succeeded {
        let l = in_sources(edges, node as int).reverse();
        lemma_out_targets_within(edges, node as int, n);
        assert forall|k: int| 0 <= k < l.len() implies #[trigger] l[k] < before.waiting.len() by {
            assert(l[k] == in_sources(edges, node as int)[in_sources(edges, node as int).len() - 1 - k]);
        }
        lemma_release_facts(edges, l, before.waiting, f1);
        let rel = release(edges, l, before.waiting, f1);
        let r0 = before.ready;
        assert forall|i: int| 0 <= i < after.ready.len() implies !after.waiting[#[trigger] after.ready[i] as int]
            && !after.finished[after.ready[i] as int] by {
            if i < r0.len() {
                assert(after.ready[i] == r0[i]);
                assert(r0[i] < n);
            } else {
                assert(after.ready[i] == rel.1[i - r0.len()]);
                let x = rel.1[i - r0.len()];
                assert(before.waiting[x as int]);
            }
        }
        assert forall|i: int, j: int| 0 <= i < j < after.ready.len() implies #[trigger] after.ready[i]
            != #[trigger] after.ready[j] by {
            if j < r0.len() {
                assert(after.ready[i] == r0[i] && after.ready[j] == r0[j]);
            } else if i < r0.len() {
                assert(after.ready[i] == r0[i] && after.ready[j] == rel.1[j - r0.len()]);
                assert(before.waiting[rel.1[j - r0.len()] as int]);
            } else {
                assert(after.ready[i] == rel.1[i - r0.len()] && after.ready[j] == rel.1[j - r0.len()]);
            }
        }
    } else {
        assert forall|i: int| 0 <= i < after.ready.len() implies !after.waiting[#[trigger] after.ready[i] as int]
            && !after.finished[after.ready[i] as int] by {
            let x = before.ready[i];
            assert(x < n);
            assert(after.finished[x as int] == (f1[x as int] || (before.waiting[x as int]
                && !after.waiting[x as int])));
        }
        assert(after.finished[node as int] == (f1[node as int] || (before.waiting[node as int]
            && !after.waiting[node as int])));
    }
}

} // verus!
