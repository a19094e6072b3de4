use crate::graph::{GraphModel, RebuildGraph};
use crate::index::{dependents_in, IndexModel, ReverseDeps};
use crate::name_set::NameSet;
use crate::names::{lemma_take_next, names_of};
use crate::provides::{resolve_in, OwnerModel, Provides};
use std::collections::VecDeque;
use vstd::prelude::*;

verus! {

/// The graph after `from` has been joined to each of `dependents` in turn:
/// each gets a node where it had none, and an edge from `from` where there
/// was none.
pub open spec fn link_all(g: GraphModel, from: Seq<char>, dependents: Seq<Seq<char>>) -> GraphModel
    decreases dependents.len(),
{
    if dependents.len() == 0 {
        g
    } else {
        let h = link_all(g, from, dependents.drop_last()).with_node(dependents.last());
        h.with_edge(h.id_of(from), h.id_of(dependents.last()))
    }
}

/// The graph after the visit of `name`: the real package behind it has a
/// node, and is joined to each dependent of `name`, in ascending order.
pub open spec fn visit(g: GraphModel, index: IndexModel, owners: OwnerModel, name: Seq<char>) -> GraphModel {
    link_all(
        g.with_node(resolve_in(owners, name)),
        resolve_in(owners, name),
        dependents_in(index, name),
    )
}

/// The graph after the visits of `names`, in their order.
pub open spec fn visit_all(
    g: GraphModel,
    index: IndexModel,
    owners: OwnerModel,
    names: Seq<Seq<char>>,
) -> GraphModel
    decreases names.len(),
{
    if names.len() == 0 {
        g
    } else {
        visit(visit_all(g, index, owners, names.drop_last()), index, owners, names.last())
    }
}

/// The names that are marked as expanded once the first `i` seeds have
/// been visited: each seed that has dependents, and its dependents.
pub open spec fn marked_after(index: IndexModel, seeds: Seq<Seq<char>>, i: int) -> Set<Seq<char>>
    decreases i,
{
    if i <= 0 {
        Set::empty()
    } else if index.contains_key(seeds[i - 1]) {
        marked_after(index, seeds, i - 1).insert(seeds[i - 1]).union(
            dependents_in(index, seeds[i - 1]).to_set(),
        )
    } else {
        marked_after(index, seeds, i - 1)
    }
}

/// Seed `i` has its dependents put on the frontier: it has some, and it
/// was not marked as expanded when its turn came.
pub open spec fn expands(index: IndexModel, seeds: Seq<Seq<char>>, i: int) -> bool {
    index.contains_key(seeds[i]) && !marked_after(index, seeds, i).contains(seeds[i])
}

/// The names put on the frontier by the first `i` seeds.
pub open spec fn pushed_after(index: IndexModel, seeds: Seq<Seq<char>>, i: int) -> Seq<Seq<char>>
    decreases i,
{
    if i <= 0 {
        Seq::empty()
    } else if expands(index, seeds, i - 1) {
        pushed_after(index, seeds, i - 1) + dependents_in(index, seeds[i - 1])
    } else {
        pushed_after(index, seeds, i - 1)
    }
}

/// The names in the order of their visits: the seeds, then the dependents
/// of each seed that was expanded. A dependent was marked when it was put
/// on the frontier, so its own dependents are joined to it but not visited.
pub open spec fn visit_order(index: IndexModel, seeds: Seq<Seq<char>>) -> Seq<Seq<char>> {
    seeds + pushed_after(index, seeds, seeds.len() as int)
}

/// The rebuild graph that grows from the seeds: the roots, then the
/// virtual names they provide.
pub open spec fn closure_graph(index: IndexModel, owners: OwnerModel, seeds: Seq<Seq<char>>) -> GraphModel {
    visit_all(GraphModel::empty(), index, owners, visit_order(index, seeds))
}

/// Joining to a list of dependents is joining to its first part, then to
/// the rest.
pub proof fn lemma_link_all_split(
    g: GraphModel,
    from: Seq<char>,
    first: Seq<Seq<char>>,
    rest: Seq<Seq<char>>,
)
    ensures
        link_all(g, from, first + rest) == link_all(link_all(g, from, first), from, rest),
    decreases rest.len(),
{
    if rest.len() == 0 {
        assert(first + rest =~= first);
    } else {
        lemma_link_all_split(g, from, first, rest.drop_last());
        assert((first + rest).drop_last() =~= first + rest.drop_last());
        assert((first + rest).last() == rest.last());
    }
}

/// Visiting a list of names is visiting its first part, then the rest.
pub proof fn lemma_visit_all_split(
    g: GraphModel,
    index: IndexModel,
    owners: OwnerModel,
    first: Seq<Seq<char>>,
    rest: Seq<Seq<char>>,
)
    ensures
        visit_all(g, index, owners, first + rest) == visit_all(
            visit_all(g, index, owners, first),
            index,
            owners,
            rest,
        ),
    decreases rest.len(),
{
    if rest.len() == 0 {
        assert(first + rest =~= first);
    } else {
        lemma_visit_all_split(g, index, owners, first, rest.drop_last());
        assert((first + rest).drop_last() =~= first + rest.drop_last());
        assert((first + rest).last() == rest.last());
    }
}

/// `h` holds what `g` holds, and maybe more behind it.
pub open spec fn extends(h: GraphModel, g: GraphModel) -> bool {
    g.nodes.is_prefix_of(h.nodes) && g.edges.is_prefix_of(h.edges)
}

/// Joining only adds to a graph, and keeps it well-formed.
pub proof fn lemma_link_all_extends(g: GraphModel, from: Seq<char>, dependents: Seq<Seq<char>>)
    requires
        g.wf(),
        g.nodes.contains(from),
    ensures
        extends(link_all(g, from, dependents), g),
        link_all(g, from, dependents).wf(),
        link_all(g, from, dependents).nodes.contains(from),
    decreases dependents.len(),
{
    if dependents.len() > 0 {
        lemma_link_all_extends(g, from, dependents.drop_last());
        let l = link_all(g, from, dependents.drop_last());
        let h = l.with_node(dependents.last());
        lemma_with_node(l, dependents.last());
        lemma_id_of(h, from);
        lemma_id_of(h, dependents.last());
        lemma_with_edge(h, h.id_of(from), h.id_of(dependents.last()));
    }
}

/// A node of a name is in the graph afterwards, and the others keep their
/// indices.
pub proof fn lemma_with_node(g: GraphModel, name: Seq<char>)
    requires
        g.wf(),
    ensures
        g.with_node(name).wf(),
        extends(g.with_node(name), g),
        g.with_node(name).nodes.contains(name),
        forall|other: Seq<char>| #[trigger]
            g.nodes.contains(other) ==> g.with_node(name).nodes.contains(other) && g.with_node(
                name,
            ).id_of(other) == g.id_of(other),
{
    let h = g.with_node(name);
    if !g.nodes.contains(name) {
        assert(h.nodes[g.nodes.len() as int] == name);
        assert forall|i: int, j: int| 0 <= i < h.nodes.len() && 0 <= j < h.nodes.len() && i
            != j implies h.nodes[i] != h.nodes[j] by {
            if i < g.nodes.len() {
                assert(g.nodes.contains(h.nodes[i]));
            }
            if j < g.nodes.len() {
                assert(g.nodes.contains(h.nodes[j]));
            }
        }
        assert forall|other: Seq<char>| #[trigger] g.nodes.contains(other) implies h.nodes.contains(
            other,
        ) && h.id_of(other) == g.id_of(other) by {
            let i = g.id_of(other);
            assert(h.nodes[i] == other);
            lemma_id_of(h, other);
        }
    }
}

/// The index of a name is where it stands among the nodes.
pub proof fn lemma_id_of(g: GraphModel, name: Seq<char>)
    requires
        g.nodes.contains(name),
    ensures
        0 <= g.id_of(name) < g.nodes.len(),
        g.nodes[g.id_of(name)] == name,
        g.nodes.no_duplicates() ==> forall|i: int|
            0 <= i < g.nodes.len() && g.nodes[i] == name ==> i == g.id_of(name),
{
}

/// An edge between two nodes keeps the graph well-formed.
pub proof fn lemma_with_edge(g: GraphModel, from: int, to: int)
    requires
        g.wf(),
        0 <= from < g.nodes.len(),
        0 <= to < g.nodes.len(),
    ensures
        g.with_edge(from, to).wf(),
        extends(g.with_edge(from, to), g),
{
    let h = g.with_edge(from, to);
    if !g.edges.contains((from, to)) {
        assert forall|i: int, j: int| 0 <= i < h.edges.len() && 0 <= j < h.edges.len() && i
            != j implies h.edges[i] != h.edges[j] by {
            if i < g.edges.len() {
                assert(g.edges.contains(h.edges[i]));
            }
            if j < g.edges.len() {
                assert(g.edges.contains(h.edges[j]));
            }
        }
    }
}

/// A visit only adds to a graph, and keeps it well-formed.
pub proof fn lemma_visit_extends(g: GraphModel, index: IndexModel, owners: OwnerModel, name: Seq<char>)
    requires
        g.wf(),
    ensures
        extends(visit(g, index, owners, name), g),
        visit(g, index, owners, name).wf(),
{
    lemma_with_node(g, resolve_in(owners, name));
    lemma_link_all_extends(
        g.with_node(resolve_in(owners, name)),
        resolve_in(owners, name),
        dependents_in(index, name),
    );
}

/// Visits only add to a graph, and keep it well-formed.
pub proof fn lemma_visit_all_extends(
    g: GraphModel,
    index: IndexModel,
    owners: OwnerModel,
    names: Seq<Seq<char>>,
)
    requires
        g.wf(),
    ensures
        extends(visit_all(g, index, owners, names), g),
        visit_all(g, index, owners, names).wf(),
    decreases names.len(),
{
    if names.len() > 0 {
        lemma_visit_all_extends(g, index, owners, names.drop_last());
        lemma_visit_extends(
            visit_all(g, index, owners, names.drop_last()),
            index,
            owners,
            names.last(),
        );
    }
}

/// Joins node `from_id`, the node of `from`, to the node of each of
/// `dependents`, in ascending order, and says whether the graph could take
/// them all.
fn link_dependents(graph: &mut RebuildGraph, from: &String, from_id: usize, dependents: &NameSet) -> (done:
    bool)
    requires
        old(graph).wf(),
        old(graph)@.nodes.contains(from@),
        from_id == old(graph)@.id_of(from@),
    ensures
        final(graph).wf(),
        done == link_all(old(graph)@, from@, dependents.seq()).fits(),
        done ==> final(graph)@ == link_all(old(graph)@, from@, dependents.seq()),
{
    let ghost start = graph@;
    let ghost all = dependents.seq();
    let mut j: usize = 0;
    proof {
        graph.lemma_wf();
        assert(all.take(0) =~= Seq::<Seq<char>>::empty());
    }
    while j < dependents.len()
        invariant
            j <= dependents.seq().len(),
            all == dependents.seq(),
            start == old(graph)@,
            start.wf(),
            start.nodes.contains(from@),
            graph.wf(),
            graph@ == link_all(start, from@, all.take(j as int)),
            graph@.nodes.contains(from@),
            from_id == graph@.id_of(from@),
        decreases dependents.seq().len() - j,
    {
        let dependent = dependents.name(j);
        proof {
            graph.lemma_wf();
            let g = graph@;
            let h = g.with_node(dependent@);
            let next = h.with_edge(h.id_of(from@), h.id_of(dependent@));
            assert(all.take(j + 1).drop_last() =~= all.take(j as int));
            assert(all.take(j + 1).last() == dependent@);
            assert(next == link_all(start, from@, all.take(j + 1)));
            assert(all =~= all.take(j + 1) + all.skip(j + 1));
            lemma_link_all_split(start, from@, all.take(j + 1), all.skip(j + 1));
            lemma_link_all_extends(start, from@, all.take(j + 1));
            lemma_link_all_extends(next, from@, all.skip(j + 1));
            lemma_with_node(g, dependent@);
            lemma_id_of(h, from@);
            lemma_id_of(h, dependent@);
            lemma_with_edge(h, h.id_of(from@), h.id_of(dependent@));
        }
        match graph.node_for(dependent) {
            Some(id) => {
                if !graph.link(from_id, id) {
                    return false;
                }
            },
            None => {
                return false;
            },
        }
        j += 1;
    }
    proof {
        assert(all.take(all.len() as int) =~= all);
        graph.lemma_wf();
    }
    true
}

/// Puts the names on the frontier, in ascending order.
fn push_all(frontier: &mut VecDeque<String>, names: &NameSet)
    ensures
        names_of(final(frontier)@) == names_of(old(frontier)@) + names.seq(),
{
    let ghost start = names_of(frontier@);
    let mut j: usize = 0;
    assert(names_of(frontier@) =~= start + names.seq().take(0));
    while j < names.len()
        invariant
            j <= names.seq().len(),
            names_of(frontier@) == start + names.seq().take(j as int),
        decreases names.seq().len() - j,
    {
        let ghost before = frontier@;
        let name = names.name(j).clone();
        frontier.push_back(name);
        proof {
            assert(frontier@ == before.push(name));
            assert(names_of(frontier@) =~= names_of(before).push(names.seq()[j as int]));
            assert(names.seq().take(j + 1) =~= names.seq().take(j as int).push(
                names.seq()[j as int],
            ));
            assert(names_of(frontier@) =~= start + names.seq().take(j + 1));
        }
        j += 1;
    }
    assert(names.seq().take(names.seq().len() as int) =~= names.seq());
}

/// Marks the names as expanded.
fn mark_all(expanded: &mut NameSet, names: &NameSet)
    requires
        old(expanded).wf(),
    ensures
        final(expanded).wf(),
        final(expanded)@ == old(expanded)@.union(names@),
{
    let ghost start = expanded@;
    let mut j: usize = 0;
    assert(expanded@ =~= start.union(names.seq().take(0).to_set()));
    while j < names.len()
        invariant
            j <= names.seq().len(),
            expanded.wf(),
            expanded@ == start.union(names.seq().take(j as int).to_set()),
        decreases names.seq().len() - j,
    {
        expanded.insert(names.name(j).clone());
        proof {
            let next = names.seq().take(j + 1);
            lemma_take_next(names.seq(), j as int);
            assert(expanded@ =~= start.union(next.to_set()));
        }
        j += 1;
    }
    assert(names.seq().take(names.seq().len() as int) =~= names.seq());
}

/// How many of the `k` seeds are among the first `done` visits.
pub open spec fn seeds_done(done: int, k: int) -> int {
    if done < k {
        done
    } else {
        k
    }
}

/// Builds the rebuild graph of the roots, breadth first. The frontier
/// starts with the roots and the virtual names they provide. Each name
/// taken from it gets a node for the real package behind it, which is
/// joined to each of the name's dependents, in ascending order. The
/// dependents of a name are put on the frontier unless the name was marked
/// as expanded; the name and its dependents are marked then. There is no
/// graph where it would outgrow what the graph library can number.
pub fn build_graph(roots: &Vec<String>, index: &ReverseDeps, provides: &Provides) -> (graph: Option<
    RebuildGraph,
>)
    requires
        index.wf(),
        provides.wf(),
    ensures
        graph is Some <==> closure_graph(index.model(), provides.owners(), names_of(roots@) + provides.names()).fits(),
        graph is Some ==> graph->0.wf(),
        graph is Some ==> graph->0@ == closure_graph(index.model(), provides.owners(), names_of(roots@) + provides.names()),
{
    let mut graph = RebuildGraph::new();
    let mut expanded = NameSet::new();
    let mut frontier: VecDeque<String> = VecDeque::new();
    let ghost seeds = names_of(roots@) + provides.names();
    let ghost order = visit_order(index.model(), seeds);
    let ghost k = seeds.len() as int;

    let mut i: usize = 0;
    while i < roots.len()
        invariant
            i <= roots.len(),
            names_of(frontier@) == names_of(roots@).take(i as int),
        decreases roots.len() - i,
    {
        let ghost before = frontier@;
        let name = roots[i].clone();
        frontier.push_back(name);
        proof {
            assert(frontier@ == before.push(name));
            assert(names_of(frontier@) =~= names_of(roots@).take(i as int).push(roots[i as int]@));
            assert(names_of(roots@).take(i + 1) =~= names_of(roots@).take(i as int).push(
                roots[i as int]@,
            ));
        }
        i += 1;
    }
    let virtual_names = provides.names_in_order();
    let mut i: usize = 0;
    proof {
        assert(names_of(roots@).take(roots.len() as int) =~= names_of(roots@));
        assert(names_of(frontier@) =~= names_of(roots@) + provides.names().take(0));
    }
    while i < virtual_names.len()
        invariant
            i <= virtual_names.len(),
            names_of(virtual_names@) == provides.names(),
            names_of(frontier@) == names_of(roots@) + provides.names().take(i as int),
        decreases virtual_names.len() - i,
    {
        let ghost before = frontier@;
        let name = virtual_names[i].clone();
        frontier.push_back(name);
        proof {
            assert(frontier@ == before.push(name));
            assert(names_of(frontier@) =~= names_of(before).push(provides.names()[i as int]));
            assert(provides.names().take(i + 1) =~= provides.names().take(i as int).push(
                provides.names()[i as int],
            ));
            assert(names_of(frontier@) =~= names_of(roots@) + provides.names().take(i + 1));
        }
        i += 1;
    }

    let ghost mut done: int = 0;
    proof {
        assert(provides.names().take(provides.names().len() as int) =~= provides.names());
        assert(names_of(frontier@) =~= (seeds + pushed_after(index.model(), seeds, 0)).skip(0));
        assert(order.take(0) =~= Seq::<Seq<char>>::empty());
    }
    loop
        invariant
            index.wf(),
            provides.wf(),
            expanded.wf(),
            graph.wf(),
            seeds == names_of(roots@) + provides.names(),
            order == visit_order(index.model(), seeds),
            k == seeds.len(),
            0 <= done <= seeds.len() + pushed_after(index.model(), seeds, seeds_done(done, k)).len(),
            names_of(frontier@) == (seeds + pushed_after(index.model(), seeds, seeds_done(done, k))).skip(
                done,
            ),
            done <= k ==> expanded@ == marked_after(index.model(), seeds, done),
            forall|j: int|
                0 <= j < frontier@.len() && done + j >= k ==> expanded@.contains(
                    #[trigger] frontier@[j]@,
                ),
            graph@ == visit_all(GraphModel::empty(), index.model(), provides.owners(), order.take(done)),
        ensures
            graph.wf(),
            graph@ == visit_all(GraphModel::empty(), index.model(), provides.owners(), order),
        decreases k - seeds_done(done, k), frontier@.len(),
    {
        let ghost queue = names_of(frontier@);
        let ghost frontier_before = frontier@;
        let ghost marked = expanded@;
        let ghost g = graph@;
        let name = match frontier.pop_front() {
            Some(name) => name,
            None => {
                proof {
                    assert(queue.len() == 0);
                    assert(done >= k);
                    assert(order.take(done) =~= order);
                }
                break ;
            },
        };
        proof {
            assert(queue.len() > 0);
            assert(name@ == queue[0]);
            assert(name@ == order[done]);
            assert(order.take(done + 1).drop_last() =~= order.take(done));
            assert(order.take(done + 1).last() == name@);
            assert(order =~= order.take(done + 1) + order.skip(done + 1));
            lemma_visit_all_split(
                GraphModel::empty(),
                index.model(),
                provides.owners(),
                order.take(done + 1),
                order.skip(done + 1),
            );
            graph.lemma_wf();
            lemma_visit_extends(g, index.model(), provides.owners(), name@);
            lemma_visit_all_extends(
                visit(g, index.model(), provides.owners(), name@),
                index.model(),
                provides.owners(),
                order.skip(done + 1),
            );
            lemma_with_node(g, resolve_in(provides.owners(), name@));
            lemma_link_all_extends(
                g.with_node(resolve_in(provides.owners(), name@)),
                resolve_in(provides.owners(), name@),
                dependents_in(index.model(), name@),
            );
            index.lemma_dependents(name@);
        }
        let root = provides.real_name(&name);
        let root_id = match graph.node_for(root) {
            Some(id) => id,
            None => {
                return None;
            },
        };
        match index.get(&name) {
            Some(dependents) => {
                if !expanded.contains(&name) {
                    push_all(&mut frontier, dependents);
                    expanded.insert(name.clone());
                }
                if !link_dependents(&mut graph, root, root_id, dependents) {
                    return None;
                }
                mark_all(&mut expanded, dependents);
            },
            None => {},
        }
        proof {
            let deps = dependents_in(index.model(), name@);
            assert(frontier_before.subrange(1, frontier_before.len() as int) =~= frontier_before.skip(1));
            assert(names_of(frontier_before.skip(1)) =~= queue.skip(1));
            if done < k {
                assert(name@ == seeds[done]);
                assert(seeds_done(done + 1, k) == done + 1);
                assert(marked == marked_after(index.model(), seeds, done));
                if index.model().contains_key(name@) {
                    assert(marked.insert(name@).union(deps.to_set()) =~= expanded@);
                } else {
                    assert(marked =~= expanded@);
                }
                let before = seeds + pushed_after(index.model(), seeds, done);
                let after = seeds + pushed_after(index.model(), seeds, done + 1);
                if expands(index.model(), seeds, done) {
                    assert(after =~= before + deps);
                    assert(names_of(frontier@) =~= after.skip(done + 1));
                } else {
                    assert(after =~= before);
                    assert(names_of(frontier@) =~= after.skip(done + 1));
                }
                assert forall|j: int| 0 <= j < frontier@.len() && done + 1 + j >= k implies expanded@.contains(
                    #[trigger] frontier@[j]@,
                ) by {
                    if j < queue.len() - 1 {
                        assert(names_of(frontier@)[j] == queue.skip(1)[j]);
                        assert(frontier@[j]@ == frontier_before[j + 1]@);
                        assert(marked.contains(frontier_before[j + 1]@));
                    } else {
                        assert(names_of(frontier@)[j] == deps[j - (queue.len() - 1)]);
                        assert(deps.to_set().contains(deps[j - (queue.len() - 1)]));
                    }
                }
            } else {
                assert(marked.contains(frontier_before[0]@));
                assert(seeds_done(done + 1, k) == k);
                assert(names_of(frontier@) =~= (seeds + pushed_after(index.model(), seeds, k)).skip(
                    done + 1,
                ));
                assert forall|j: int| 0 <= j < frontier@.len() && done + 1 + j >= k implies expanded@.contains(
                    #[trigger] frontier@[j]@,
                ) by {
                    assert(frontier@[j] == frontier_before[j + 1]);
                    assert(marked.contains(frontier_before[j + 1]@));
                }
            }
            done = done + 1;
        }
    }
    proof {
        graph.lemma_wf();
    }
    Some(graph)
}

} // verus!
