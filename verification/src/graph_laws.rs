use crate::closure::{
    closure_graph, expands, extends, marked_after, pushed_after, lemma_id_of, lemma_link_all_extends, lemma_visit_all_extends,
    lemma_with_edge, lemma_with_node, link_all, visit, visit_all, visit_order,
};
use crate::graph::GraphModel;
use crate::index::{dependents_in, IndexModel, ReverseDeps};
use crate::order::rebuild_order_of;
use crate::provides::{resolve_in, OwnerModel};
use vstd::prelude::*;

verus! {

/// Two names, of the nodes that an edge joins.
pub type NamePair = (Seq<char>, Seq<char>);

/// The names that have a node.
pub open spec fn node_names(g: GraphModel) -> Set<Seq<char>> {
    g.nodes.to_set()
}

/// The edges, each as the names of its source and its target.
pub open spec fn edge_names(g: GraphModel) -> Set<NamePair> {
    Set::new(
        |pair: NamePair|
            exists|k: int|
                0 <= k < g.edges.len() && g.nodes[(#[trigger] g.edges[k]).0] == pair.0
                    && g.nodes[g.edges[k].1] == pair.1,
    )
}

/// The edges from `from` to each of `dependents`.
pub open spec fn edges_to(from: Seq<char>, dependents: Seq<Seq<char>>) -> Set<NamePair> {
    Set::new(|pair: NamePair| pair.0 == from && dependents.contains(pair.1))
}

/// The names that the visits of `names` give a node: the real package
/// behind each name, and each dependent of each name.
pub open spec fn visited_nodes(index: IndexModel, owners: OwnerModel, names: Seq<Seq<char>>) -> Set<
    Seq<char>,
> {
    Set::new(
        |node: Seq<char>|
            exists|i: int|
                0 <= i < names.len() && (resolve_in(owners, #[trigger] names[i]) == node
                    || dependents_in(index, names[i]).contains(node)),
    )
}

/// The edges that the visits of `names` add: from the real package behind
/// each name to each dependent of the name.
pub open spec fn visited_edges(index: IndexModel, owners: OwnerModel, names: Seq<Seq<char>>) -> Set<
    NamePair,
> {
    Set::new(
        |pair: NamePair|
            exists|i: int|
                0 <= i < names.len() && resolve_in(owners, #[trigger] names[i]) == pair.0
                    && dependents_in(index, names[i]).contains(pair.1),
    )
}

/// A graph that extends another has its nodes under the same indices, and
/// its edges.
pub proof fn lemma_extends_names(h: GraphModel, g: GraphModel)
    requires
        g.wf(),
        extends(h, g),
    ensures
        node_names(g).subset_of(node_names(h)),
        edge_names(g).subset_of(edge_names(h)),
{
    assert forall|name: Seq<char>| node_names(g).contains(name) implies node_names(h).contains(
        name,
    ) by {
        let i = choose|i: int| 0 <= i < g.nodes.len() && g.nodes[i] == name;
        assert(h.nodes[i] == name);
    }
    assert forall|pair: NamePair| edge_names(g).contains(pair) implies edge_names(h).contains(
        pair,
    ) by {
        let k = choose|k: int|
            0 <= k < g.edges.len() && g.nodes[(#[trigger] g.edges[k]).0] == pair.0
                && g.nodes[g.edges[k].1] == pair.1;
        assert(h.edges[k] == g.edges[k]);
        assert(h.nodes[g.edges[k].0] == g.nodes[g.edges[k].0]);
        assert(h.nodes[g.edges[k].1] == g.nodes[g.edges[k].1]);
    }
}

/// What a new node changes: the names of the nodes, by its own.
pub proof fn lemma_with_node_names(g: GraphModel, name: Seq<char>)
    requires
        g.wf(),
    ensures
        node_names(g.with_node(name)) == node_names(g).insert(name),
        edge_names(g.with_node(name)) == edge_names(g),
{
    let h = g.with_node(name);
    lemma_with_node(g, name);
    lemma_extends_names(h, g);
    assert forall|n: Seq<char>| node_names(h).contains(n) implies node_names(g).insert(
        name,
    ).contains(n) by {
        let i = choose|i: int| 0 <= i < h.nodes.len() && h.nodes[i] == n;
        if i < g.nodes.len() {
            assert(g.nodes[i] == n);
        }
    }
    assert(node_names(h) =~= node_names(g).insert(name));
    assert forall|pair: NamePair| edge_names(h).contains(pair) implies edge_names(g).contains(
        pair,
    ) by {
        let k = choose|k: int|
            0 <= k < h.edges.len() && h.nodes[(#[trigger] h.edges[k]).0] == pair.0
                && h.nodes[h.edges[k].1] == pair.1;
        assert(g.edges[k] == h.edges[k]);
        assert(h.nodes[g.edges[k].0] == g.nodes[g.edges[k].0]);
        assert(h.nodes[g.edges[k].1] == g.nodes[g.edges[k].1]);
    }
    assert(edge_names(h) =~= edge_names(g));
}

/// What a new edge changes: the edges, by the names of its two nodes.
pub proof fn lemma_with_edge_names(g: GraphModel, from: int, to: int)
    requires
        g.wf(),
        0 <= from < g.nodes.len(),
        0 <= to < g.nodes.len(),
    ensures
        node_names(g.with_edge(from, to)) == node_names(g),
        edge_names(g.with_edge(from, to)) == edge_names(g).insert((g.nodes[from], g.nodes[to])),
{
    let h = g.with_edge(from, to);
    let added = (g.nodes[from], g.nodes[to]);
    lemma_with_edge(g, from, to);
    lemma_extends_names(h, g);
    assert forall|pair: NamePair| edge_names(h).contains(pair) implies edge_names(g).insert(
        added,
    ).contains(pair) by {
        let k = choose|k: int|
            0 <= k < h.edges.len() && h.nodes[(#[trigger] h.edges[k]).0] == pair.0
                && h.nodes[h.edges[k].1] == pair.1;
        if k < g.edges.len() {
            assert(g.edges[k] == h.edges[k]);
        }
    }
    assert(edge_names(h).contains(added)) by {
        if g.edges.contains((from, to)) {
            let k = choose|k: int| 0 <= k < g.edges.len() && g.edges[k] == (from, to);
            assert(g.nodes[g.edges[k].0] == added.0);
        } else {
            let k = g.edges.len() as int;
            assert(h.edges[k] == (from, to));
            assert(h.nodes[h.edges[k].0] == added.0);
        }
    }
    assert(edge_names(h) =~= edge_names(g).insert(added));
}

/// What joining changes: each dependent has a node, and an edge leads to
/// it from `from`.
pub proof fn lemma_link_all_names(g: GraphModel, from: Seq<char>, dependents: Seq<Seq<char>>)
    requires
        g.wf(),
        g.nodes.contains(from),
    ensures
        node_names(link_all(g, from, dependents)) == node_names(g).union(dependents.to_set()),
        edge_names(link_all(g, from, dependents)) == edge_names(g).union(
            edges_to(from, dependents),
        ),
    decreases dependents.len(),
{
    let all = link_all(g, from, dependents);
    if dependents.len() == 0 {
        assert(node_names(all) =~= node_names(g).union(dependents.to_set()));
        assert(edge_names(all) =~= edge_names(g).union(edges_to(from, dependents)));
    } else {
        let first = dependents.drop_last();
        let last = dependents.last();
        let l = link_all(g, from, first);
        let h = l.with_node(last);
        lemma_link_all_names(g, from, first);
        lemma_link_all_extends(g, from, first);
        lemma_with_node(l, last);
        lemma_with_node_names(l, last);
        lemma_id_of(h, from);
        lemma_id_of(h, last);
        lemma_with_edge_names(h, h.id_of(from), h.id_of(last));
        assert forall|n: Seq<char>| dependents.contains(n) <==> (first.contains(n) || n
            == last) by {
            if first.contains(n) {
                let i = choose|i: int| 0 <= i < first.len() && first[i] == n;
                assert(dependents[i] == n);
            }
            if dependents.contains(n) {
                let i = choose|i: int| 0 <= i < dependents.len() && dependents[i] == n;
                if i < first.len() {
                    assert(first[i] == n);
                }
            }
            if n == last {
                assert(dependents[dependents.len() - 1] == n);
            }
        }
        assert(node_names(all) =~= node_names(g).union(dependents.to_set()));
        assert(edge_names(all) =~= edge_names(g).union(edges_to(from, dependents)));
    }
}

/// What a visit changes: the real package behind the name has a node, each
/// dependent of the name has one, and an edge leads to it from the real
/// package.
pub proof fn lemma_visit_names(g: GraphModel, index: IndexModel, owners: OwnerModel, name: Seq<char>)
    requires
        g.wf(),
    ensures
        node_names(visit(g, index, owners, name)) == node_names(g).insert(
            resolve_in(owners, name),
        ).union(dependents_in(index, name).to_set()),
        edge_names(visit(g, index, owners, name)) == edge_names(g).union(
            edges_to(resolve_in(owners, name), dependents_in(index, name)),
        ),
{
    let from = resolve_in(owners, name);
    lemma_with_node(g, from);
    lemma_with_node_names(g, from);
    lemma_link_all_names(g.with_node(from), from, dependents_in(index, name));
}

/// What visits change.
pub proof fn lemma_visit_all_names(
    g: GraphModel,
    index: IndexModel,
    owners: OwnerModel,
    names: Seq<Seq<char>>,
)
    requires
        g.wf(),
    ensures
        node_names(visit_all(g, index, owners, names)) == node_names(g).union(
            visited_nodes(index, owners, names),
        ),
        edge_names(visit_all(g, index, owners, names)) == edge_names(g).union(
            visited_edges(index, owners, names),
        ),
    decreases names.len(),
{
    let all = visit_all(g, index, owners, names);
    if names.len() == 0 {
        assert(node_names(all) =~= node_names(g).union(visited_nodes(index, owners, names)));
        assert(edge_names(all) =~= edge_names(g).union(visited_edges(index, owners, names)));
    } else {
        let first = names.drop_last();
        let last = names.last();
        let before = visit_all(g, index, owners, first);
        lemma_visit_all_names(g, index, owners, first);
        lemma_visit_all_extends(g, index, owners, first);
        lemma_visit_names(before, index, owners, last);
        assert forall|n: Seq<char>| visited_nodes(index, owners, names).contains(n) <==> (
        visited_nodes(index, owners, first).contains(n) || resolve_in(owners, last) == n
            || dependents_in(index, last).contains(n)) by {
            if visited_nodes(index, owners, first).contains(n) {
                let i = choose|i: int|
                    0 <= i < first.len() && (resolve_in(owners, #[trigger] first[i]) == n
                        || dependents_in(index, first[i]).contains(n));
                assert(names[i] == first[i]);
            }
            if visited_nodes(index, owners, names).contains(n) {
                let i = choose|i: int|
                    0 <= i < names.len() && (resolve_in(owners, #[trigger] names[i]) == n
                        || dependents_in(index, names[i]).contains(n));
                if i < first.len() {
                    assert(first[i] == names[i]);
                }
            }
            if resolve_in(owners, last) == n || dependents_in(index, last).contains(n) {
                assert(names[names.len() - 1] == last);
            }
        }
        assert forall|p: NamePair| visited_edges(index, owners, names).contains(p) <==> (
        visited_edges(index, owners, first).contains(p) || edges_to(
            resolve_in(owners, last),
            dependents_in(index, last),
        ).contains(p)) by {
            if visited_edges(index, owners, first).contains(p) {
                let i = choose|i: int|
                    0 <= i < first.len() && resolve_in(owners, #[trigger] first[i]) == p.0
                        && dependents_in(index, first[i]).contains(p.1);
                assert(names[i] == first[i]);
            }
            if visited_edges(index, owners, names).contains(p) {
                let i = choose|i: int|
                    0 <= i < names.len() && resolve_in(owners, #[trigger] names[i]) == p.0
                        && dependents_in(index, names[i]).contains(p.1);
                if i < first.len() {
                    assert(first[i] == names[i]);
                }
            }
            if edges_to(resolve_in(owners, last), dependents_in(index, last)).contains(p) {
                assert(names[names.len() - 1] == last);
            }
        }
        assert(node_names(all) =~= node_names(g).union(visited_nodes(index, owners, names)));
        assert(edge_names(all) =~= edge_names(g).union(visited_edges(index, owners, names)));
    }
}

/// A name is marked after the first `i` seeds where one of these seeds has
/// dependents, and the name is that seed or one of its dependents.
pub proof fn lemma_marked_after(index: IndexModel, seeds: Seq<Seq<char>>, i: int, name: Seq<char>)
    requires
        0 <= i <= seeds.len(),
    ensures
        marked_after(index, seeds, i).contains(name) <==> exists|j: int|
            0 <= j < i && index.contains_key(#[trigger] seeds[j]) && (seeds[j] == name
                || dependents_in(index, seeds[j]).contains(name)),
    decreases i,
{
    if i > 0 {
        lemma_marked_after(index, seeds, i - 1, name);
        let here = index.contains_key(seeds[i - 1]) && (seeds[i - 1] == name || dependents_in(
            index,
            seeds[i - 1],
        ).contains(name));
        let before = exists|j: int|
            0 <= j < i - 1 && index.contains_key(#[trigger] seeds[j]) && (seeds[j] == name
                || dependents_in(index, seeds[j]).contains(name));
        let now = exists|j: int|
            0 <= j < i && index.contains_key(#[trigger] seeds[j]) && (seeds[j] == name
                || dependents_in(index, seeds[j]).contains(name));
        assert(marked_after(index, seeds, i).contains(name) <==> (before || here));
        if before {
            let j = choose|j: int|
                0 <= j < i - 1 && index.contains_key(#[trigger] seeds[j]) && (seeds[j] == name
                    || dependents_in(index, seeds[j]).contains(name));
            assert(0 <= j < i && index.contains_key(seeds[j]));
        }
        if here {
            assert(index.contains_key(seeds[i - 1]));
        }
        if now {
            let j = choose|j: int|
                0 <= j < i && index.contains_key(#[trigger] seeds[j]) && (seeds[j] == name
                    || dependents_in(index, seeds[j]).contains(name));
            if j < i - 1 {
                assert(before);
            }
        }
    }
}

/// A seed is expanded where it has dependents, and no seed before it that
/// has dependents is the same name or has it among its dependents.
pub proof fn law_expands(index: IndexModel, seeds: Seq<Seq<char>>, i: int)
    requires
        0 <= i < seeds.len(),
    ensures
        expands(index, seeds, i) <==> index.contains_key(seeds[i]) && forall|j: int|
            0 <= j < i && index.contains_key(#[trigger] seeds[j]) ==> seeds[j] != seeds[i]
                && !dependents_in(index, seeds[j]).contains(seeds[i]),
{
    lemma_marked_after(index, seeds, i, seeds[i]);
}

/// A name is put on the frontier by the first `i` seeds where it is a
/// dependent of one of them that was expanded.
pub proof fn lemma_pushed_after(index: IndexModel, seeds: Seq<Seq<char>>, i: int, name: Seq<char>)
    requires
        0 <= i <= seeds.len(),
    ensures
        pushed_after(index, seeds, i).contains(name) <==> exists|j: int|
            0 <= j < i && #[trigger] expands(index, seeds, j) && dependents_in(
                index,
                seeds[j],
            ).contains(name),
    decreases i,
{
    let all = pushed_after(index, seeds, i);
    if i > 0 {
        lemma_pushed_after(index, seeds, i - 1, name);
        let first = pushed_after(index, seeds, i - 1);
        let deps = dependents_in(index, seeds[i - 1]);
        let before = exists|j: int|
            0 <= j < i - 1 && #[trigger] expands(index, seeds, j) && dependents_in(
                index,
                seeds[j],
            ).contains(name);
        let now = exists|j: int|
            0 <= j < i && #[trigger] expands(index, seeds, j) && dependents_in(
                index,
                seeds[j],
            ).contains(name);
        let here = expands(index, seeds, i - 1) && deps.contains(name);
        if expands(index, seeds, i - 1) {
            assert(all == first + deps);
            if first.contains(name) {
                let at = choose|at: int| 0 <= at < first.len() && first[at] == name;
                assert(all[at] == name);
            }
            if deps.contains(name) {
                let at = choose|at: int| 0 <= at < deps.len() && deps[at] == name;
                assert(all[first.len() + at] == name);
            }
            if all.contains(name) {
                let at = choose|at: int| 0 <= at < all.len() && all[at] == name;
                if at < first.len() {
                    assert(first[at] == name);
                } else {
                    assert(deps[at - first.len()] == name);
                }
            }
        }
        assert(all.contains(name) <==> (first.contains(name) || here));
        if before {
            let j = choose|j: int|
                0 <= j < i - 1 && #[trigger] expands(index, seeds, j) && dependents_in(
                    index,
                    seeds[j],
                ).contains(name);
            assert(0 <= j < i && expands(index, seeds, j));
        }
        if here {
            assert(expands(index, seeds, i - 1));
        }
        if now {
            let j = choose|j: int|
                0 <= j < i && #[trigger] expands(index, seeds, j) && dependents_in(
                    index,
                    seeds[j],
                ).contains(name);
            if j < i - 1 {
                assert(before);
            }
        }
    }
}

/// A name is visited where it is a seed, or a dependent of a seed that was
/// expanded.
pub proof fn law_visit_order(index: IndexModel, seeds: Seq<Seq<char>>, name: Seq<char>)
    ensures
        visit_order(index, seeds).contains(name) <==> seeds.contains(name) || exists|j: int|
            0 <= j < seeds.len() && #[trigger] expands(index, seeds, j) && dependents_in(
                index,
                seeds[j],
            ).contains(name),
{
    let pushed = pushed_after(index, seeds, seeds.len() as int);
    let order = visit_order(index, seeds);
    lemma_pushed_after(index, seeds, seeds.len() as int, name);
    if seeds.contains(name) {
        let at = choose|at: int| 0 <= at < seeds.len() && seeds[at] == name;
        assert(order[at] == name);
    }
    if pushed.contains(name) {
        let at = choose|at: int| 0 <= at < pushed.len() && pushed[at] == name;
        assert(order[seeds.len() + at] == name);
    }
    if order.contains(name) {
        let at = choose|at: int| 0 <= at < order.len() && order[at] == name;
        if at < seeds.len() {
            assert(seeds[at] == name);
        } else {
            assert(pushed[at - seeds.len()] == name);
        }
    }
}

/// `chain` starts at a seed, and each further name of it depends on the
/// name before.
pub open spec fn is_chain(index: IndexModel, seeds: Seq<Seq<char>>, chain: Seq<Seq<char>>) -> bool {
    &&& chain.len() >= 1
    &&& seeds.contains(chain[0])
    &&& forall|i: int|
        0 <= i < chain.len() - 1 ==> dependents_in(index, #[trigger] chain[i]).contains(
            chain[i + 1],
        )
}

/// `name` is a seed, or depends on one, directly or through others: it is
/// in the transitive closure of the seeds.
pub open spec fn in_closure(index: IndexModel, seeds: Seq<Seq<char>>, name: Seq<char>) -> bool {
    exists|chain: Seq<Seq<char>>| is_chain(index, seeds, chain) && #[trigger] chain.last() == name
}

/// Of every visited name each dependent is visited too: no name is left
/// with dependents that were joined to it but not visited.
pub open spec fn visits_are_closed(index: IndexModel, seeds: Seq<Seq<char>>) -> bool {
    forall|name: Seq<char>, dependent: Seq<char>|
        visit_order(index, seeds).contains(name) && #[trigger] dependents_in(index, name).contains(
            dependent,
        ) ==> visit_order(index, seeds).contains(dependent)
}

/// Every visited name is in the transitive closure of the seeds.
pub proof fn law_visited_in_closure(index: IndexModel, seeds: Seq<Seq<char>>, name: Seq<char>)
    requires
        visit_order(index, seeds).contains(name),
    ensures
        in_closure(index, seeds, name),
{
    law_visit_order(index, seeds, name);
    if seeds.contains(name) {
        let chain = seq![name];
        assert(is_chain(index, seeds, chain));
        assert(chain.last() == name);
    } else {
        let j = choose|j: int|
            0 <= j < seeds.len() && #[trigger] expands(index, seeds, j) && dependents_in(
                index,
                seeds[j],
            ).contains(name);
        let chain = seq![seeds[j], name];
        assert(seeds.contains(chain[0]));
        assert(is_chain(index, seeds, chain));
        assert(chain.last() == name);
    }
}

/// Where the visits are closed, the end of every chain is visited.
pub proof fn lemma_chain_visited(index: IndexModel, seeds: Seq<Seq<char>>, chain: Seq<Seq<char>>)
    requires
        visits_are_closed(index, seeds),
        is_chain(index, seeds, chain),
    ensures
        visit_order(index, seeds).contains(chain.last()),
    decreases chain.len(),
{
    if chain.len() == 1 {
        law_visit_order(index, seeds, chain[0]);
    } else {
        let first = chain.drop_last();
        assert(is_chain(index, seeds, first)) by {
            assert(first[0] == chain[0]);
            assert forall|i: int| 0 <= i < first.len() - 1 implies dependents_in(
                index,
                #[trigger] first[i],
            ).contains(first[i + 1]) by {
                assert(dependents_in(index, chain[i]).contains(chain[i + 1]));
            }
        }
        lemma_chain_visited(index, seeds, first);
        let at = chain.len() - 2;
        assert(dependents_in(index, chain[at]).contains(chain[at + 1]));
        assert(first.last() == chain[at]);
    }
}

/// The transitive closure: where the visits are closed, the visited names
/// are exactly the names in the transitive closure of the seeds. The visits
/// are not closed where a dependent of a dependent has dependents of its
/// own: these are neither visited nor joined to it.
pub proof fn law_closed_visits_are_the_closure(
    index: IndexModel,
    seeds: Seq<Seq<char>>,
    name: Seq<char>,
)
    requires
        visits_are_closed(index, seeds),
    ensures
        visit_order(index, seeds).contains(name) <==> in_closure(index, seeds, name),
{
    if visit_order(index, seeds).contains(name) {
        law_visited_in_closure(index, seeds, name);
    }
    if in_closure(index, seeds, name) {
        let chain = choose|chain: Seq<Seq<char>>|
            is_chain(index, seeds, chain) && #[trigger] chain.last() == name;
        lemma_chain_visited(index, seeds, chain);
    }
}

/// The rebuild graph is well-formed. A name has a node exactly where it is
/// the real package behind a visited name, or a dependent of a visited
/// name; an edge leads from one name to another exactly where the first is
/// the real package behind a visited name and the second a dependent of
/// that name.
pub proof fn law_closure_graph(index: IndexModel, owners: OwnerModel, seeds: Seq<Seq<char>>)
    ensures
        closure_graph(index, owners, seeds).wf(),
        node_names(closure_graph(index, owners, seeds)) == visited_nodes(
            index,
            owners,
            visit_order(index, seeds),
        ),
        edge_names(closure_graph(index, owners, seeds)) == visited_edges(
            index,
            owners,
            visit_order(index, seeds),
        ),
{
    let order = visit_order(index, seeds);
    let empty = GraphModel::empty();
    lemma_visit_all_extends(empty, index, owners, order);
    lemma_visit_all_names(empty, index, owners, order);
    assert(node_names(empty) =~= Set::<Seq<char>>::empty());
    assert(edge_names(empty) =~= Set::<NamePair>::empty());
    assert(node_names(empty).union(visited_nodes(index, owners, order)) =~= visited_nodes(
        index,
        owners,
        order,
    ));
    assert(edge_names(empty).union(visited_edges(index, owners, order)) =~= visited_edges(
        index,
        owners,
        order,
    ));
}

/// Idempotence: two indexes that hold the same pairs of target and
/// dependent, however each was built, give the same rebuild graph, so the
/// same nodes and the same edges.
pub proof fn law_same_pairs_same_graph(
    first: ReverseDeps,
    second: ReverseDeps,
    owners: OwnerModel,
    seeds: Seq<Seq<char>>,
)
    requires
        first.wf(),
        second.wf(),
        first.pairs() == second.pairs(),
    ensures
        closure_graph(first.model(), owners, seeds) == closure_graph(second.model(), owners, seeds),
        node_names(closure_graph(first.model(), owners, seeds)) == node_names(
            closure_graph(second.model(), owners, seeds),
        ),
        edge_names(closure_graph(first.model(), owners, seeds)) == edge_names(
            closure_graph(second.model(), owners, seeds),
        ),
{
    first.lemma_model();
    second.lemma_model();
}

/// Determinism: the rebuild order does not depend on how the index was
/// built either. Two indexes that hold the same pairs give the same order
/// for the same roots, since the dependents of a name are joined to it in
/// ascending order.
pub proof fn law_same_pairs_same_order(
    first: ReverseDeps,
    second: ReverseDeps,
    owners: OwnerModel,
    virtual_names: Seq<Seq<char>>,
    roots: Seq<Seq<char>>,
    roots_only: bool,
)
    requires
        first.wf(),
        second.wf(),
        first.pairs() == second.pairs(),
    ensures
        rebuild_order_of(closure_graph(first.model(), owners, roots + virtual_names), roots, roots_only)
            == rebuild_order_of(
            closure_graph(second.model(), owners, roots + virtual_names),
            roots,
            roots_only,
        ),
{
    first.lemma_model();
    second.lemma_model();
}

} // verus!
