use crate::graph::{graph_edges, graph_nodes, GraphModel, RebuildGraph};
use crate::names::names_of;
use vstd::prelude::*;

verus! {

/// Node indices as integers.
pub open spec fn ids_of(v: Seq<usize>) -> Seq<int> {
    Seq::new(v.len(), |i: int| v[i] as int)
}

/// The nodes in the order in which the depth-first post-order walk of
/// `petgraph` yields them, on a graph with these edges, when the walk's
/// stack starts as `roots`, the last of them on top.
pub uninterp spec fn post_order(edges: Seq<(int, int)>, roots: Seq<int>) -> Seq<int>;

/// `path` follows edges from its first node to its last.
pub open spec fn is_path(edges: Seq<(int, int)>, path: Seq<int>) -> bool {
    &&& path.len() >= 1
    &&& forall|i: int| 0 <= i < path.len() - 1 ==> edges.contains((#[trigger] path[i], path[i + 1]))
}

/// Some path leads from `a` to `b`; the path of `a` alone leads from `a`
/// to `a`.
pub open spec fn reaches(edges: Seq<(int, int)>, a: int, b: int) -> bool {
    exists|path: Seq<int>| is_path(edges, path) && path.first() == a && #[trigger] path.last() == b
}

/// `order` is a post-order of what the roots reach in a graph with
/// `nodes` nodes: it holds nodes of the graph, none twice, and every root;
/// with a node it holds the target of each edge from it, and the target
/// stands before the node unless a path leads back from the target to the
/// node.
pub open spec fn is_post_order(
    nodes: nat,
    edges: Seq<(int, int)>,
    roots: Seq<int>,
    order: Seq<int>,
) -> bool {
    &&& order.no_duplicates()
    &&& forall|i: int| 0 <= i < order.len() ==> 0 <= #[trigger] order[i] < nodes
    &&& forall|i: int| 0 <= i < roots.len() ==> order.contains(#[trigger] roots[i])
    &&& forall|k: int|
        0 <= k < edges.len() && order.contains((#[trigger] edges[k]).0) ==> {
            &&& order.contains(edges[k].1)
            &&& (order.index_of(edges[k].1) < order.index_of(edges[k].0) || reaches(
                edges,
                edges[k].1,
                edges[k].0,
            ))
        }
}

/// Walks the graph with `DfsPostOrder` of `petgraph`: the walker is made
/// with `DfsPostOrder::empty`, its stack is filled with `roots`, and
/// `Walker::iter` calls its `next` until nothing is left. The result is
/// what the walk yields, in its order, as node indices.
///
/// What the contract claims: the result is a function of the edges and the
/// roots alone, named `post_order`; and it is a post-order of what the
/// roots reach. `petgraph` documents the walk as emitting each node after
/// all its descendants. Its `next` yields a node when the node leaves the
/// stack, once, after every successor that was not yet discovered has been
/// put above it and has left the stack in turn. A successor that was
/// discovered before and has not been yielded yet is still open below the
/// node, which it reaches: only then may the successor come after the
/// node, and of that case the contract claims nothing more.
#[verifier::external_body]
fn walk_post_order(
    g: &petgraph::graph::Graph<String, u16, petgraph::Directed, u32>,
    roots: &Vec<usize>,
) -> (order: Vec<usize>)
    requires
        graph_nodes(*g).len() <= u32::MAX,
        forall|i: int| 0 <= i < roots.len() ==> (#[trigger] roots[i]) < graph_nodes(*g).len(),
    ensures
        ids_of(order@) == post_order(graph_edges(*g), ids_of(roots@)),
        is_post_order(graph_nodes(*g).len(), graph_edges(*g), ids_of(roots@), ids_of(order@)),
{
    let mut walk = petgraph::visit::DfsPostOrder::empty(g);
    walk.stack.extend(roots.iter().map(|id| petgraph::graph::NodeIndex::new(*id)));
    petgraph::visit::Walker::iter(walk, g).map(|node| node.index()).collect()
}

/// The indices of the nodes of the roots, in the order of the roots; a
/// root without a node is left out.
pub open spec fn root_ids(g: GraphModel, roots: Seq<Seq<char>>) -> Seq<int>
    decreases roots.len(),
{
    if roots.len() == 0 {
        Seq::empty()
    } else if g.nodes.contains(roots.last()) {
        root_ids(g, roots.drop_last()).push(g.id_of(roots.last()))
    } else {
        root_ids(g, roots.drop_last())
    }
}

/// The names of the nodes `ids`.
pub open spec fn names_at(g: GraphModel, ids: Seq<int>) -> Seq<Seq<char>> {
    Seq::new(ids.len(), |i: int| g.nodes[ids[i]])
}

/// What is shown of `names`: all of them, or, with `roots_only`, those
/// that are roots.
pub open spec fn kept(names: Seq<Seq<char>>, roots: Seq<Seq<char>>, roots_only: bool) -> Seq<Seq<char>>
    decreases names.len(),
{
    if names.len() == 0 {
        Seq::empty()
    } else if !roots_only || roots.contains(names.last()) {
        kept(names.drop_last(), roots, roots_only).push(names.last())
    } else {
        kept(names.drop_last(), roots, roots_only)
    }
}

/// The rebuild order that comes of the post-order `post`: the names of its
/// nodes, the last first, and of these what is shown.
pub open spec fn emitted(
    g: GraphModel,
    post: Seq<int>,
    roots: Seq<Seq<char>>,
    roots_only: bool,
) -> Seq<Seq<char>> {
    kept(names_at(g, post.reverse()), roots, roots_only)
}

/// The rebuild order of a graph for the roots.
pub open spec fn rebuild_order_of(g: GraphModel, roots: Seq<Seq<char>>, roots_only: bool) -> Seq<
    Seq<char>,
> {
    emitted(g, post_order(g.edges, root_ids(g, roots)), roots, roots_only)
}

/// The walk from the nodes of the roots yields a post-order of what they
/// reach in the graph.
pub open spec fn is_walked(g: GraphModel, roots: Seq<Seq<char>>) -> bool {
    is_post_order(
        g.nodes.len(),
        g.edges,
        root_ids(g, roots),
        post_order(g.edges, root_ids(g, roots)),
    )
}

/// Is `name` one of `names`?
pub fn has_name(names: &Vec<String>, name: &String) -> (found: bool)
    ensures
        found == names_of(names@).contains(name@),
{
    let mut i: usize = 0;
    while i < names.len()
        invariant
            i <= names.len(),
            forall|k: int| 0 <= k < i ==> names[k]@ != name@,
        decreases names.len() - i,
    {
        if names[i] == *name {
            assert(names_of(names@)[i as int] == name@);
            return true;
        }
        i += 1;
    }
    false
}

/// The indices of the nodes of the roots, in the order of the roots; a
/// root without a node is left out.
pub fn root_nodes(graph: &RebuildGraph, roots: &Vec<String>) -> (ids: Vec<usize>)
    requires
        graph.wf(),
    ensures
        ids_of(ids@) == root_ids(graph@, names_of(roots@)),
        forall|i: int| 0 <= i < ids.len() ==> (#[trigger] ids[i]) < graph@.nodes.len(),
{
    let mut ids: Vec<usize> = Vec::new();
    let mut i: usize = 0;
    let ghost all = names_of(roots@);
    assert(all.take(0) =~= Seq::<Seq<char>>::empty());
    assert(ids_of(ids@) =~= root_ids(graph@, all.take(0)));
    while i < roots.len()
        invariant
            i <= roots.len(),
            graph.wf(),
            all == names_of(roots@),
            ids_of(ids@) == root_ids(graph@, all.take(i as int)),
            forall|j: int| 0 <= j < ids.len() ==> (#[trigger] ids[j]) < graph@.nodes.len(),
        decreases roots.len() - i,
    {
        let ghost before = ids@;
        proof {
            assert(all.take(i + 1).drop_last() =~= all.take(i as int));
            assert(all.take(i + 1).last() == roots[i as int]@);
        }
        match graph.id_of(&roots[i]) {
            Some(id) => {
                ids.push(id);
                assert(ids_of(ids@) =~= ids_of(before).push(id as int));
            },
            None => {},
        }
        i += 1;
    }
    assert(all.take(roots.len() as int) =~= all);
    ids
}

/// The rebuild order that comes of a post-order of the graph: the names of
/// its nodes, the last first; with `roots_only`, only those that are roots.
pub fn emit_order(graph: &RebuildGraph, post: &Vec<usize>, roots: &Vec<String>, roots_only: bool) -> (order:
    Vec<String>)
    requires
        graph.wf(),
        forall|i: int| 0 <= i < post.len() ==> (#[trigger] post[i]) < graph@.nodes.len(),
    ensures
        names_of(order@) == emitted(graph@, ids_of(post@), names_of(roots@), roots_only),
{
    let mut order: Vec<String> = Vec::new();
    let ghost backwards = names_at(graph@, ids_of(post@).reverse());
    let mut left: usize = post.len();
    assert(backwards.take(0) =~= Seq::<Seq<char>>::empty());
    assert(names_of(order@) =~= kept(backwards.take(0), names_of(roots@), roots_only));
    while left > 0
        invariant
            left <= post.len(),
            graph.wf(),
            forall|i: int| 0 <= i < post.len() ==> (#[trigger] post[i]) < graph@.nodes.len(),
            backwards == names_at(graph@, ids_of(post@).reverse()),
            names_of(order@) == kept(
                backwards.take(post.len() - left),
                names_of(roots@),
                roots_only,
            ),
        decreases left,
    {
        left -= 1;
        let name = graph.name_of(post[left]);
        proof {
            let t = post.len() - left - 1;
            assert(backwards.take(t + 1).drop_last() =~= backwards.take(t));
            assert(backwards.take(t + 1).last() == backwards[t]);
            assert(ids_of(post@).reverse()[t] == ids_of(post@)[left as int]);
            assert(backwards[t] == name@);
        }
        if !roots_only || has_name(roots, name) {
            let ghost before = order@;
            let copy = name.clone();
            order.push(copy);
            assert(order@ == before.push(copy));
            assert(names_of(order@) =~= names_of(before).push(name@));
        }
    }
    assert(backwards.take(post.len() as int) =~= backwards);
    order
}

/// The rebuild order of the graph for the roots: a depth-first walk in
/// post-order from the nodes of the roots, the last node first; with
/// `roots_only`, only the roots among them.
pub fn rebuild_order(graph: &RebuildGraph, roots: &Vec<String>, roots_only: bool) -> (order: Vec<
    String,
>)
    requires
        graph.wf(),
    ensures
        names_of(order@) == rebuild_order_of(graph@, names_of(roots@), roots_only),
        is_walked(graph@, names_of(roots@)),
{
    proof {
        graph.lemma_wf();
    }
    let ids = root_nodes(graph, roots);
    let post = walk_post_order(graph.inner(), &ids);
    proof {
        assert forall|i: int| 0 <= i < post.len() implies (#[trigger] post[i])
            < graph@.nodes.len() by {
            assert(ids_of(post@)[i] == post[i] as int);
        }
    }
    emit_order(graph, &post, roots, roots_only)
}

} // verus!
