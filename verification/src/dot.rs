use crate::graph::{graph_edges, graph_nodes, RebuildGraph};
use vstd::prelude::*;

verus! {

/// The text in which `Dot` of `petgraph` renders a directed graph with
/// these node names and these edges, the edges without labels.
pub uninterp spec fn dot_text(nodes: Seq<Seq<char>>, edges: Seq<(int, int)>) -> Seq<char>;

/// Renders the graph with `Dot` of `petgraph`, configured to leave the
/// labels of the edges out. The text lists the nodes in the order of their
/// indices, each with its name as label, then the edges in the order in
/// which they were added; nothing else of the graph enters it.
#[verifier::external_body]
fn render_dot(g: &petgraph::graph::Graph<String, u16, petgraph::Directed, u32>) -> (text: String)
    ensures
        text@ == dot_text(graph_nodes(*g), graph_edges(*g)),
{
    petgraph::dot::Dot::with_config(g, &[petgraph::dot::Config::EdgeNoLabel]).to_string()
}

/// The graph as the text of a dotfile.
pub fn dotfile_text(graph: &RebuildGraph) -> (text: String)
    ensures
        text@ == dot_text(graph@.nodes, graph@.edges),
{
    render_dot(graph.inner())
}

} // verus!
