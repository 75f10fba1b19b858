//! The dependency graph built during resolution (a petgraph `DiGraph`).
use vstd::prelude::*;

use petgraph::graph::{Graph, NodeIndex};
use petgraph::Directed;

use crate::dependency::PackageId;
use crate::strmap::{StrMap, ViewClone};

verus! {

#[verifier::external_type_specification]
#[verifier::external_body]
#[verifier::reject_recursive_types(N)]
#[verifier::reject_recursive_types(E)]
#[verifier::reject_recursive_types(Ty)]
#[verifier::reject_recursive_types(Ix)]
pub struct ExGraph<N, E, Ty, Ix>(Graph<N, E, Ty, Ix>);

#[verifier::external_type_specification]
#[verifier::external_body]
pub struct ExDirected(Directed);

/// How a package depends on another.
#[derive(Debug, Clone, Copy, PartialEq, Eq, Structural)]
pub enum DepEdge {
    Normal,
    Peer,
    Optional,
}

/// The petgraph graph that holds the packages and their dependency edges.
pub type PackageGraph = Graph<PackageId, DepEdge, Directed, u32>;

/// The node weights of a graph, in index order.
pub uninterp spec fn graph_nodes(g: Graph<PackageId, DepEdge, Directed, u32>) -> Seq<
    (Seq<char>, Seq<char>),
>;

/// The edges of a graph (source, target, weight), in the order they were added.
pub uninterp spec fn graph_edges(g: Graph<PackageId, DepEdge, Directed, u32>) -> Seq<
    (usize, usize, DepEdge),
>;

/// The targets of the edges that leave `a`, the most recently added first.
pub open spec fn out_targets(edges: Seq<(usize, usize, DepEdge)>, a: usize) -> Seq<usize>
    decreases edges.len(),
{
    if edges.len() == 0 {
        Seq::empty()
    } else {
        let e = edges.last();
        let rest = out_targets(edges.drop_last(), a);
        if e.0 == a {
            seq![e.1] + rest
        } else {
            rest
        }
    }
}

/// `petgraph::Graph::new`: a graph without nodes or edges.
#[verifier::external_body]
fn graph_new() -> (g: PackageGraph)
    ensures
        graph_nodes(g) == Seq::<(Seq<char>, Seq<char>)>::empty(),
        graph_edges(g) == Seq::<(usize, usize, DepEdge)>::empty(),
{
    Graph::new()
}

/// `petgraph::Graph::add_node`: appends the node; its index is the former node count.
/// The graph panics at `u32::MAX` nodes, which `requires` leaves out.
#[verifier::external_body]
fn graph_add_node(g: &mut PackageGraph, id: PackageId) -> (ix: usize)
    requires
        graph_nodes(*old(g)).len() < u32::MAX,
    ensures
        graph_nodes(*final(g)) == graph_nodes(*old(g)).push(id@),
        graph_edges(*final(g)) == graph_edges(*old(g)),
        ix == graph_nodes(*old(g)).len(),
{
    g.add_node(id).index()
}

/// `petgraph::Graph::add_edge`: appends the edge. The graph panics on a missing node
/// and at `u32::MAX` edges, which `requires` leaves out.
#[verifier::external_body]
fn graph_add_edge(g: &mut PackageGraph, a: usize, b: usize, w: DepEdge)
    requires
        a < graph_nodes(*old(g)).len(),
        b < graph_nodes(*old(g)).len(),
        graph_edges(*old(g)).len() < u32::MAX,
    ensures
        graph_nodes(*final(g)) == graph_nodes(*old(g)),
        graph_edges(*final(g)) == graph_edges(*old(g)).push((a, b, w)),
{
    g.add_edge(NodeIndex::new(a), NodeIndex::new(b), w);
}

/// `petgraph::Graph::neighbors` of a directed graph: the targets of the edges from
/// `a`, in reverse order of their addition.
#[verifier::external_body]
fn graph_neighbors(g: &PackageGraph, a: usize) -> (r: Vec<usize>)
    requires
        a < graph_nodes(*g).len(),
    ensures
        r@ == out_targets(graph_edges(*g), a),
{
    g.neighbors(NodeIndex::new(a)).map(|n| n.index()).collect()
}

/// `Index<NodeIndex> for petgraph::Graph`: the weight of node `i`.
#[verifier::external_body]
fn graph_node<'a>(g: &'a PackageGraph, i: usize) -> (r: &'a PackageId)
    requires
        i < graph_nodes(*g).len(),
    ensures
        r@ == graph_nodes(*g)[i as int],
{
    &g[NodeIndex::new(i)]
}

/// `petgraph::Graph::node_count`.
#[verifier::external_body]
fn graph_node_count(g: &PackageGraph) -> (n: usize)
    ensures
        n == graph_nodes(*g).len(),
{
    g.node_count()
}

/// `petgraph::Graph::edge_count`.
#[verifier::external_body]
fn graph_edge_count(g: &PackageGraph) -> (n: usize)
    ensures
        n == graph_edges(*g).len(),
{
    g.edge_count()
}

/// Dependency graph built during resolution
pub struct DependencyGraph {
    graph: PackageGraph,
    /// name → version → node index
    index_map: StrMap<StrMap<usize>>,
}

/// The index records every node under its name and version, and nothing else;
/// edges join existing nodes.
pub open spec fn index_consistent(
    nodes: Seq<(Seq<char>, Seq<char>)>,
    edges: Seq<(usize, usize, DepEdge)>,
    index: Map<Seq<char>, Map<Seq<char>, usize>>,
) -> bool {
    &&& forall|i: int|
        0 <= i < nodes.len() ==> index.contains_key(#[trigger] nodes[i].0) && index[nodes[i].0].contains_key(
            nodes[i].1,
        ) && index[nodes[i].0][nodes[i].1] == i
    &&& forall|n: Seq<char>, v: Seq<char>|
        #[trigger] index.contains_key(n) && #[trigger] index[n].contains_key(v) ==> index[n][v]
            < nodes.len() && nodes[index[n][v] as int] == (n, v)
    &&& forall|k: int|
        0 <= k < edges.len() ==> (#[trigger] edges[k]).0 < nodes.len() && edges[k].1
            < nodes.len()
}

/// `id` is a node of the graph.
pub open spec fn has_node(nodes: Seq<(Seq<char>, Seq<char>)>, id: (Seq<char>, Seq<char>)) -> bool {
    exists|i: int| 0 <= i < nodes.len() && nodes[i] == id
}

impl DependencyGraph {
    /// The index matches the nodes and the edges join nodes; every value has it.
    #[verifier::type_invariant]
    pub closed spec fn wf(self) -> bool {
        index_consistent(graph_nodes(self.graph), graph_edges(self.graph), self.index_map@)
    }

    /// The packages, in the order they were added.
    pub closed spec fn nodes(self) -> Seq<(Seq<char>, Seq<char>)> {
        graph_nodes(self.graph)
    }

    /// The dependency edges (parent index, child index, kind), in the order they were added.
    pub closed spec fn edges(self) -> Seq<(usize, usize, DepEdge)> {
        graph_edges(self.graph)
    }

    /// Nodes are distinct and edges join nodes.
    pub proof fn lemma_wf(&self)
        requires
            self.wf(),
        ensures
            forall|i: int, j: int|
                0 <= i < j < self.nodes().len() ==> #[trigger] self.nodes()[i] != #[trigger] self.nodes()[j],
            forall|k: int|
                0 <= k < self.edges().len() ==> (#[trigger] self.edges()[k]).0 < self.nodes().len()
                    && self.edges()[k].1 < self.nodes().len(),
    {
        let nodes = self.nodes();
        assert forall|i: int, j: int| 0 <= i < j < nodes.len() implies #[trigger] nodes[i]
            != #[trigger] nodes[j] by {
            if nodes[i] == nodes[j] {
                assert(self.index_map@[nodes[i].0][nodes[i].1] == i);
                assert(self.index_map@[nodes[j].0][nodes[j].1] == j);
            }
        }
    }

    pub fn new() -> (g: DependencyGraph)
        ensures
            g.nodes() == Seq::<(Seq<char>, Seq<char>)>::empty(),
            g.edges() == Seq::<(usize, usize, DepEdge)>::empty(),
    {
        let g = DependencyGraph { graph: graph_new(), index_map: StrMap::new() };
        g
    }

    /// The node index of a package, if it is in the graph.
    pub fn index_of(&self, id: &PackageId) -> (r: Option<usize>)
        ensures
            match r {
                Some(i) => i < self.nodes().len() && self.nodes()[i as int] == id@,
                None => !has_node(self.nodes(), id@),
            },
    {
        proof {
            use_type_invariant(self);
        }
        match self.index_map.get(id.name.as_str()) {
            Some(versions) => match versions.get(id.version.as_str()) {
                Some(i) => Some(*i),
                None => {
                    proof {
                        self.lemma_absent(id@);
                    }
                    None
                },
            },
            None => {
                proof {
                    self.lemma_absent(id@);
                }
                None
            },
        }
    }

    proof fn lemma_absent(&self, id: (Seq<char>, Seq<char>))
        requires
            self.wf(),
            !(self.index_map@.contains_key(id.0) && self.index_map@[id.0].contains_key(id.1)),
        ensures
            !has_node(self.nodes(), id),
    {
        if has_node(self.nodes(), id) {
            let i = choose|i: int| 0 <= i < self.nodes().len() && self.nodes()[i] == id;
            assert(self.nodes()[i].0 == id.0);
        }
    }

    /// Number of packages.
    pub fn node_count(&self) -> (n: usize)
        ensures
            n == self.nodes().len(),
    {
        graph_node_count(&self.graph)
    }

    /// Number of dependency edges.
    pub fn edge_count(&self) -> (n: usize)
        ensures
            n == self.edges().len(),
    {
        graph_edge_count(&self.graph)
    }

    /// The package is in the graph.
    pub fn contains(&self, id: &PackageId) -> (b: bool)
        ensures
            b == has_node(self.nodes(), id@),
    {
        self.index_of(id).is_some()
    }

    /// Add a package node, returning its index. Idempotent.
    pub fn add_package(&mut self, id: PackageId) -> (ix: usize)
        requires
            old(self).nodes().len() < u32::MAX,
        ensures
            has_node(old(self).nodes(), id@) ==> final(self).nodes() == old(self).nodes(),
            !has_node(old(self).nodes(), id@) ==> final(self).nodes() == old(self).nodes().push(
                id@,
            ),
            final(self).edges() == old(self).edges(),
            ix < final(self).nodes().len(),
            final(self).nodes()[ix as int] == id@,
    {
        if let Some(idx) = self.index_of(&id) {
            return idx;
        }
        proof {
            use_type_invariant(&*self);
        }
        let mut this = DependencyGraph::new();
        std::mem::swap(&mut this, self);
        let DependencyGraph { mut graph, mut index_map } = this;
        let ghost old_nodes = graph_nodes(graph);
        let ghost old_index = index_map@;
        let idx = graph_add_node(&mut graph, id.view_clone());
        let mut versions = match index_map.remove(id.name.as_str()) {
            Some(m) => m,
            None => StrMap::new(),
        };
        versions.insert(id.version.view_clone(), idx);
        index_map.insert(id.name.view_clone(), versions);
        proof {
            let nodes = graph_nodes(graph);
            let index = index_map@;
            assert(nodes == old_nodes.push(id@));
            assert(index == old_index.insert(
                id@.0,
                if old_index.contains_key(id@.0) {
                    old_index[id@.0]
                } else {
                    Map::empty()
                }.insert(id@.1, idx),
            ));
            assert forall|i: int| 0 <= i < nodes.len() implies index.contains_key(
                #[trigger] nodes[i].0,
            ) && index[nodes[i].0].contains_key(nodes[i].1) && index[nodes[i].0][nodes[i].1]
                == i by {
                if i < old_nodes.len() {
                    assert(nodes[i] == old_nodes[i]);
                    assert(old_index.contains_key(old_nodes[i].0));
                    if old_nodes[i] == id@ {
                        assert(has_node(old_nodes, id@));
                    }
                }
            }
            assert forall|n: Seq<char>, v: Seq<char>|
                #[trigger] index.contains_key(n) && #[trigger] index[n].contains_key(
                    v,
                ) implies index[n][v] < nodes.len() && nodes[index[n][v] as int] == (n, v) by {
                if n == id@.0 && v == id@.1 {
                } else if n == id@.0 {
                    assert(old_index.contains_key(n) && old_index[n].contains_key(v));
                } else {
                    assert(old_index.contains_key(n) && old_index[n].contains_key(v));
                }
            }
        }
        *self = DependencyGraph { graph, index_map };
        idx
    }

    /// Add a dependency edge from `parent` to `child`; both must be in the graph.
    pub fn add_dependency(&mut self, parent: &PackageId, child: &PackageId, kind: DepEdge)
        requires
            has_node(old(self).nodes(), parent@),
            has_node(old(self).nodes(), child@),
            old(self).edges().len() < u32::MAX,
        ensures
            final(self).nodes() == old(self).nodes(),
            exists|a: int, b: int|
                #![trigger old(self).nodes()[a], old(self).nodes()[b]]
                0 <= a < old(self).nodes().len() && 0 <= b < old(self).nodes().len()
                    && old(self).nodes()[a] == parent@ && old(self).nodes()[b] == child@
                    && final(self).edges() == old(self).edges().push(
                    (a as usize, b as usize, kind),
                ),
    {
        proof {
            use_type_invariant(&*self);
        }
        let parent_idx = match self.index_of(parent) {
            Some(i) => i,
            None => {
                proof {
                    assert(false);
                }
                return ;
            },
        };
        let child_idx = match self.index_of(child) {
            Some(i) => i,
            None => {
                proof {
                    assert(false);
                }
                return ;
            },
        };
        let mut this = DependencyGraph::new();
        std::mem::swap(&mut this, self);
        let DependencyGraph { mut graph, index_map } = this;
        let ghost old_nodes = graph_nodes(graph);
        graph_add_edge(&mut graph, parent_idx, child_idx, kind);
        proof {
            let edges = graph_edges(graph);
            assert forall|k: int| 0 <= k < edges.len() implies (#[trigger] edges[k]).0
                < old_nodes.len() && edges[k].1 < old_nodes.len() by {
                if k < edges.len() - 1 {
                    assert(edges[k] == old(self).edges()[k]);
                }
            }
        }
        *self = DependencyGraph { graph, index_map };
    }

    /// Get all direct dependencies of a package, the most recently added edge first;
    /// none for a package that is not in the graph.
    pub fn dependencies_of(&self, id: &PackageId) -> (r: Vec<&PackageId>)
        ensures
            !has_node(self.nodes(), id@) ==> r@.len() == 0,
            forall|i: int|
                0 <= i < self.nodes().len() && self.nodes()[i] == id@ ==> r@.len() == out_targets(
                    self.edges(),
                    i as usize,
                ).len() && forall|k: int|
                    0 <= k < r@.len() ==> (#[trigger] r@[k])@ == self.nodes()[out_targets(
                        self.edges(),
                        i as usize,
                    )[k] as int],
    {
        proof {
            use_type_invariant(self);
            self.lemma_wf();
        }
        let idx = match self.index_of(id) {
            Some(i) => i,
            None => {
                return Vec::new();
            },
        };
        let targets = graph_neighbors(&self.graph, idx);
        proof {
            lemma_out_targets_in_range(self.edges(), idx, self.nodes().len());
        }
        let mut r: Vec<&PackageId> = Vec::new();
        let mut k: usize = 0;
        while k < targets.len()
            invariant
                k <= targets@.len(),
                targets@ == out_targets(self.edges(), idx),
                forall|m: int| 0 <= m < targets@.len() ==> targets@[m] < self.nodes().len(),
                self.nodes().len() == graph_nodes(self.graph).len(),
                self.nodes() == graph_nodes(self.graph),
                r@.len() == k,
                forall|m: int| 0 <= m < k ==> (#[trigger] r@[m])@ == self.nodes()[targets@[m] as int],
            decreases targets@.len() - k,
        {
            r.push(graph_node(&self.graph, targets[k]));
            k = k + 1;
        }
        r
    }

    /// All packages in the graph, in the order they were added.
    pub fn all_packages(&self) -> (r: Vec<&PackageId>)
        ensures
            r@.len() == self.nodes().len(),
            forall|i: int| 0 <= i < r@.len() ==> (#[trigger] r@[i])@ == self.nodes()[i],
    {
        let n = graph_node_count(&self.graph);
        let mut r: Vec<&PackageId> = Vec::new();
        let mut i: usize = 0;
        while i < n
            invariant
                i <= n == graph_nodes(self.graph).len(),
                self.nodes() == graph_nodes(self.graph),
                r@.len() == i,
                forall|m: int| 0 <= m < i ==> (#[trigger] r@[m])@ == self.nodes()[m],
            decreases n - i,
        {
            r.push(graph_node(&self.graph, i));
            i = i + 1;
        }
        r
    }
}

proof fn lemma_out_targets_in_range(edges: Seq<(usize, usize, DepEdge)>, a: usize, n: nat)
    requires
        forall|k: int| 0 <= k < edges.len() ==> (#[trigger] edges[k]).0 < n && edges[k].1 < n,
    ensures
        forall|m: int|
            0 <= m < out_targets(edges, a).len() ==> #[trigger] out_targets(edges, a)[m] < n,
    decreases edges.len(),
{
    if edges.len() > 0 {
        let rest = edges.drop_last();
        assert forall|k: int| 0 <= k < rest.len() implies (#[trigger] rest[k]).0 < n && rest[k].1
            < n by {
            assert(rest[k] == edges[k]);
        }
        lemma_out_targets_in_range(rest, a, n);
        let e = edges.last();
        assert(e == edges[edges.len() - 1]);
        let t = out_targets(edges, a);
        let rt = out_targets(rest, a);
        assert forall|m: int| 0 <= m < t.len() implies #[trigger] t[m] < n by {
            if e.0 == a {
                if m > 0 {
                    assert(t[m] == rt[m - 1]);
                }
            } else {
                assert(t[m] == rt[m]);
            }
        }
    }
}

} // verus!
