use crate::name_map::NameMap;
use vstd::prelude::*;

verus! {

/// The graph type of `petgraph`. Verus sees nothing inside it: what a graph
/// holds is given by `graph_nodes` and `graph_edges`.
#[verifier::external_type_specification]
#[verifier::external_body]
#[verifier::reject_recursive_types(N)]
#[verifier::reject_recursive_types(E)]
#[verifier::reject_recursive_types(Ty)]
#[verifier::reject_recursive_types(Ix)]
pub struct ExGraph<N, E, Ty, Ix>(petgraph::graph::Graph<N, E, Ty, Ix>);

/// The marker of `petgraph` for graphs with directed edges.
#[verifier::external_type_specification]
#[verifier::external_body]
pub struct ExDirected(petgraph::Directed);

/// The weights of the nodes of a graph, in the order of their indices,
/// which is the order in which they were added.
pub uninterp spec fn graph_nodes(
    g: petgraph::graph::Graph<String, u16, petgraph::Directed, u32>,
) -> Seq<Seq<char>>;

/// The edges of a graph, each as the indices of its source and its target,
/// in the order in which they were added.
pub uninterp spec fn graph_edges(
    g: petgraph::graph::Graph<String, u16, petgraph::Directed, u32>,
) -> Seq<(int, int)>;

/// `Graph::new` of `petgraph`: a directed graph without nodes or edges.
#[verifier::external_body]
fn graph_new() -> (g: petgraph::graph::Graph<String, u16, petgraph::Directed, u32>)
    ensures
        graph_nodes(g) == Seq::<Seq<char>>::empty(),
        graph_edges(g) == Seq::<(int, int)>::empty(),
{
    petgraph::graph::Graph::new()
}

/// `Graph::add_node` of `petgraph`: the node is added behind the others,
/// its index is the number of nodes before the call, and the edges stay.
/// The call panics once the index no longer fits the graph's index type,
/// which the precondition rules out.
#[verifier::external_body]
fn graph_add_node(
    g: &mut petgraph::graph::Graph<String, u16, petgraph::Directed, u32>,
    name: String,
) -> (id: usize)
    requires
        graph_nodes(*old(g)).len() < u32::MAX,
    ensures
        id == graph_nodes(*old(g)).len(),
        graph_nodes(*final(g)) == graph_nodes(*old(g)).push(name@),
        graph_edges(*final(g)) == graph_edges(*old(g)),
{
    g.add_node(name).index()
}

/// `Graph::contains_edge` of `petgraph`: whether an edge leads from node
/// `from` to node `to`.
#[verifier::external_body]
fn graph_contains_edge(
    g: &petgraph::graph::Graph<String, u16, petgraph::Directed, u32>,
    from: usize,
    to: usize,
) -> (found: bool)
    requires
        from < graph_nodes(*g).len() <= u32::MAX,
        to < graph_nodes(*g).len(),
    ensures
        found == graph_edges(*g).contains((from as int, to as int)),
{
    g.contains_edge(petgraph::graph::NodeIndex::new(from), petgraph::graph::NodeIndex::new(to))
}

/// `Graph::add_edge` of `petgraph`: the edge is added behind the others,
/// and the nodes stay. The call panics where a node does not exist or the
/// edge's index no longer fits the graph's index type, which the
/// precondition rules out.
#[verifier::external_body]
fn graph_add_edge(
    g: &mut petgraph::graph::Graph<String, u16, petgraph::Directed, u32>,
    from: usize,
    to: usize,
    weight: u16,
)
    requires
        from < graph_nodes(*old(g)).len() <= u32::MAX,
        to < graph_nodes(*old(g)).len(),
        graph_edges(*old(g)).len() < u32::MAX,
    ensures
        graph_nodes(*final(g)) == graph_nodes(*old(g)),
        graph_edges(*final(g)) == graph_edges(*old(g)).push((from as int, to as int)),
{
    g.add_edge(petgraph::graph::NodeIndex::new(from), petgraph::graph::NodeIndex::new(to), weight);
}

/// Indexing a graph of `petgraph` by a node index: the weight of that node.
/// It panics where the node does not exist, which the precondition rules
/// out.
#[verifier::external_body]
fn graph_node_name(
    g: &petgraph::graph::Graph<String, u16, petgraph::Directed, u32>,
    id: usize,
) -> (name: &String)
    requires
        id < graph_nodes(*g).len() <= u32::MAX,
    ensures
        name@ == graph_nodes(*g)[id as int],
{
    &g[petgraph::graph::NodeIndex::new(id)]
}

/// What a rebuild graph holds: the names of its nodes, in the order of
/// their indices, and its edges, each from the index of a package to the
/// index of one that must be rebuilt after it, in the order in which they
/// were added.
pub struct GraphModel {
    pub nodes: Seq<Seq<char>>,
    pub edges: Seq<(int, int)>,
}

impl GraphModel {
    /// The graph without nodes.
    pub open spec fn empty() -> GraphModel {
        GraphModel { nodes: Seq::empty(), edges: Seq::empty() }
    }

    /// No name has two nodes, no pair of nodes two edges, and every edge
    /// joins nodes of the graph.
    pub open spec fn wf(self) -> bool {
        &&& self.nodes.no_duplicates()
        &&& self.edges.no_duplicates()
        &&& forall|k: int|
            0 <= k < self.edges.len() ==> 0 <= (#[trigger] self.edges[k]).0 < self.nodes.len() && 0
                <= self.edges[k].1 < self.nodes.len()
    }

    /// The index of the node called `name`.
    pub open spec fn id_of(self, name: Seq<char>) -> int {
        self.nodes.index_of(name)
    }

    /// The graph with a node called `name`: a new last node where it had
    /// none.
    pub open spec fn with_node(self, name: Seq<char>) -> GraphModel {
        if self.nodes.contains(name) {
            self
        } else {
            GraphModel { nodes: self.nodes.push(name), edges: self.edges }
        }
    }

    /// The graph with an edge from `from` to `to`: a new last edge where it
    /// had none.
    pub open spec fn with_edge(self, from: int, to: int) -> GraphModel {
        if self.edges.contains((from, to)) {
            self
        } else {
            GraphModel { nodes: self.nodes, edges: self.edges.push((from, to)) }
        }
    }

    /// The graph is within what the index type of the graph library can
    /// number.
    pub open spec fn fits(self) -> bool {
        self.nodes.len() <= u32::MAX && self.edges.len() <= u32::MAX
    }
}

/// The graph of what must be rebuilt after what, with the index of each
/// name's node at hand.
pub struct RebuildGraph {
    graph: petgraph::graph::Graph<String, u16, petgraph::Directed, u32>,
    ids: NameMap<usize>,
    edge_count: usize,
}

impl RebuildGraph {
    /// What the graph holds.
    pub closed spec fn view(&self) -> GraphModel {
        GraphModel { nodes: graph_nodes(self.graph), edges: graph_edges(self.graph) }
    }

    /// The graph is well-formed, and each name is kept with the index of
    /// its node.
    pub closed spec fn wf(&self) -> bool {
        &&& self@.wf()
        &&& self@.fits()
        &&& self.edge_count == self@.edges.len()
        &&& self.ids.wf()
        &&& forall|name: Seq<char>| #[trigger] self.ids.has(name) <==> self@.nodes.contains(name)
        &&& forall|name: Seq<char>| #[trigger]
            self.ids.has(name) ==> 0 <= self.ids.value(name) < self@.nodes.len()
                && self@.nodes[self.ids.value(name) as int] == name
    }

    /// What well-formedness means for what the graph holds.
    pub proof fn lemma_wf(&self)
        requires
            self.wf(),
        ensures
            self@.wf(),
            self@.fits(),
    {
    }

    /// The graph without nodes.
    pub fn new() -> (graph: RebuildGraph)
        ensures
            graph.wf(),
            graph@ == GraphModel::empty(),
    {
        RebuildGraph { graph: graph_new(), ids: NameMap::new(), edge_count: 0 }
    }

    /// The graph of the graph library behind this one.
    pub(crate) fn inner(&self) -> (g: &petgraph::graph::Graph<String, u16, petgraph::Directed, u32>)
        ensures
            graph_nodes(*g) == self@.nodes,
            graph_edges(*g) == self@.edges,
    {
        &self.graph
    }

    /// The number of nodes.
    pub fn node_count(&self) -> (n: usize)
        requires
            self.wf(),
        ensures
            n == self@.nodes.len(),
    {
        proof {
            self.ids.keys().unique_seq_to_set();
            self@.nodes.unique_seq_to_set();
            crate::names::lemma_ascending_no_duplicates(self.ids.keys());
            assert forall|n: Seq<char>|
                self.ids.keys().to_set().contains(n) <==> self@.nodes.to_set().contains(n) by {
                assert(self.ids.has(n) <==> self@.nodes.contains(n));
            }
            assert(self.ids.keys().to_set() =~= self@.nodes.to_set());
        }
        self.ids.len()
    }

    /// The index of the node called `name`, if there is one.
    pub fn id_of(&self, name: &String) -> (id: Option<usize>)
        requires
            self.wf(),
        ensures
            id is Some <==> self@.nodes.contains(name@),
            id is Some ==> id->0 == self@.id_of(name@) && id->0 < self@.nodes.len(),
    {
        match self.ids.get(name) {
            Some(id) => {
                proof {
                    let i = self@.id_of(name@);
                    assert(self@.nodes[i] == name@);
                }
                Some(*id)
            },
            None => None,
        }
    }

    /// The name of node `id`.
    pub fn name_of(&self, id: usize) -> (name: &String)
        requires
            self.wf(),
            id < self@.nodes.len(),
        ensures
            name@ == self@.nodes[id as int],
    {
        graph_node_name(&self.graph, id)
    }

    /// The index of the node called `name`, which is added where the graph
    /// has none of that name. Nothing happens where the graph cannot take
    /// another node.
    pub fn node_for(&mut self, name: &String) -> (id: Option<usize>)
        requires
            old(self).wf(),
        ensures
            final(self).wf(),
            id is Some <==> old(self)@.with_node(name@).fits(),
            id is Some ==> final(self)@ == old(self)@.with_node(name@),
            id is Some ==> id->0 == final(self)@.id_of(name@),
            id is Some ==> id->0 < final(self)@.nodes.len(),
            id is None ==> final(self)@ == old(self)@,
    {
        match self.ids.get(name) {
            Some(id) => {
                proof {
                    let i = self@.id_of(name@);
                    assert(self@.nodes[i] == name@);
                }
                Some(*id)
            },
            None => {
                if self.node_count() >= u32::MAX as usize {
                    return None;
                }
                let ghost before = *self;
                let id = graph_add_node(&mut self.graph, name.clone());
                self.ids.insert(name.clone(), id);
                proof {
                    let nodes = self@.nodes;
                    assert(nodes == before@.nodes.push(name@));
                    assert(nodes[id as int] == name@);
                    assert forall|n: Seq<char>| #[trigger] self.ids.has(n) <==> nodes.contains(n) by {
                        assert(self.ids@.contains_key(n) == self.ids.has(n));
                        assert(before.ids@.contains_key(n) == before.ids.has(n));
                        if before@.nodes.contains(n) {
                            let i = before@.nodes.index_of(n);
                            assert(nodes[i] == n);
                        }
                        if nodes.contains(n) && n != name@ {
                            let i = nodes.index_of(n);
                            assert(before@.nodes[i] == n);
                        }
                    }
                    assert forall|n: Seq<char>| #[trigger] self.ids.has(n) implies 0
                        <= self.ids.value(n) < nodes.len() && nodes[self.ids.value(n) as int]
                        == n by {
                        assert(self.ids@.contains_key(n) == self.ids.has(n));
                        assert(self.ids@[n] == self.ids.value(n));
                        if n != name@ {
                            assert(before.ids@.contains_key(n) == before.ids.has(n));
                            assert(before.ids@[n] == before.ids.value(n));
                        }
                    }
                    let i = self@.id_of(name@);
                    assert(nodes[i] == name@);
                }
                Some(id)
            },
        }
    }

    /// Adds the edge from node `from` to node `to` unless it already
    /// exists, and says whether the graph holds it now: it does not where
    /// the graph cannot take another edge.
    pub fn link(&mut self, from: usize, to: usize) -> (done: bool)
        requires
            old(self).wf(),
            from < old(self)@.nodes.len(),
            to < old(self)@.nodes.len(),
        ensures
            final(self).wf(),
            done == old(self)@.with_edge(from as int, to as int).fits(),
            done ==> final(self)@ == old(self)@.with_edge(from as int, to as int),
            !done ==> final(self)@ == old(self)@,
    {
        if !graph_contains_edge(&self.graph, from, to) {
            if self.edge_count >= u32::MAX as usize {
                return false;
            }
            graph_add_edge(&mut self.graph, from, to, 1);
            self.edge_count = self.edge_count + 1;
        }
        true
    }
}

} // verus!
