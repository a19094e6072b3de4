use crate::closure::{closure_graph, visit_order};
use crate::graph::GraphModel;
use crate::graph_laws::{edge_names, law_closure_graph, node_names, visited_edges, visited_nodes};
use crate::index::{dependents_in, IndexModel};
use crate::order::{emitted, is_post_order, kept, names_at, reaches, root_ids};
use crate::package::Repository;
use crate::provides::{resolve_in, OwnerModel};
use crate::{order_of, Rebuild};
use vstd::prelude::*;

verus! {

/// With everything shown, what is kept of a list is the list.
pub proof fn lemma_kept_all(names: Seq<Seq<char>>, roots: Seq<Seq<char>>)
    ensures
        kept(names, roots, false) == names,
    decreases names.len(),
{
    if names.len() > 0 {
        lemma_kept_all(names.drop_last(), roots);
        assert(names =~= names.drop_last().push(names.last()));
    } else {
        assert(names =~= Seq::<Seq<char>>::empty());
    }
}

/// With `roots_only`, what is kept of a list are its roots, in the order
/// and as often as the list holds them.
pub proof fn lemma_kept_roots(names: Seq<Seq<char>>, roots: Seq<Seq<char>>)
    ensures
        forall|name: Seq<char>|
            kept(names, roots, true).contains(name) <==> names.contains(name) && roots.contains(
                name,
            ),
        names.no_duplicates() ==> kept(names, roots, true).no_duplicates(),
    decreases names.len(),
{
    let all = kept(names, roots, true);
    if names.len() > 0 {
        let first = names.drop_last();
        let rest = kept(first, roots, true);
        lemma_kept_roots(first, roots);
        assert forall|name: Seq<char>| all.contains(name) <==> names.contains(name)
            && roots.contains(name) by {
            if names.contains(name) {
                let i = choose|i: int| 0 <= i < names.len() && names[i] == name;
                if i < first.len() {
                    assert(first[i] == name);
                }
            }
            if first.contains(name) {
                let i = choose|i: int| 0 <= i < first.len() && first[i] == name;
                assert(names[i] == name);
            }
            if rest.contains(name) {
                let i = choose|i: int| 0 <= i < rest.len() && rest[i] == name;
                if roots.contains(names.last()) {
                    assert(all[i] == name);
                }
            }
            if all.contains(name) {
                let i = choose|i: int| 0 <= i < all.len() && all[i] == name;
                if roots.contains(names.last()) {
                    if i < rest.len() {
                        assert(rest[i] == name);
                    } else {
                        assert(names[names.len() - 1] == name);
                    }
                }
            }
            if name == names.last() && roots.contains(name) {
                assert(all[all.len() - 1] == name);
            }
        }
        if names.no_duplicates() {
            assert(first.no_duplicates());
            if roots.contains(names.last()) {
                assert forall|i: int, j: int| 0 <= i < all.len() && 0 <= j < all.len() && i
                    != j implies all[i] != all[j] by {
                    if i < rest.len() && j < rest.len() {
                        assert(rest[i] != rest[j]);
                    } else {
                        let inner = if i < rest.len() {
                            i
                        } else {
                            j
                        };
                        assert(rest.contains(rest[inner]));
                        assert(first.contains(rest[inner]));
                        let m = choose|m: int| 0 <= m < first.len() && first[m] == rest[inner];
                        assert(names[m] == rest[inner]);
                        assert(names[names.len() - 1] == names.last());
                    }
                }
            }
        }
    }
}

/// What is kept of a list without duplicates stands in the order of the
/// list: of two names that are kept, the one that stands first in the list
/// stands first in what is kept.
pub proof fn lemma_kept_order(names: Seq<Seq<char>>, roots: Seq<Seq<char>>, roots_only: bool)
    requires
        names.no_duplicates(),
    ensures
        kept(names, roots, roots_only).no_duplicates(),
        forall|x: Seq<char>|
            kept(names, roots, roots_only).contains(x) ==> #[trigger] names.contains(x),
        forall|x: Seq<char>, y: Seq<char>|
            kept(names, roots, roots_only).contains(x) && kept(names, roots, roots_only).contains(
                y,
            ) && names.index_of(x) < names.index_of(y) ==> kept(names, roots, roots_only).index_of(
                x,
            ) < kept(names, roots, roots_only).index_of(y),
    decreases names.len(),
{
    let all = kept(names, roots, roots_only);
    if names.len() > 0 {
        let first = names.drop_last();
        let last = names.last();
        let rest = kept(first, roots, roots_only);
        assert(first.no_duplicates());
        lemma_kept_order(first, roots, roots_only);
        assert forall|x: Seq<char>| rest.contains(x) implies names.index_of(x) == first.index_of(
            x,
        ) && x != last by {
            let i = first.index_of(x);
            assert(first.contains(x));
            assert(names[i] == x);
            let j = names.index_of(x);
            assert(names[j] == x);
            assert(names[names.len() - 1] == last);
        }
        if !roots_only || roots.contains(last) {
            assert(all == rest.push(last));
            assert forall|i: int, j: int| 0 <= i < all.len() && 0 <= j < all.len() && i
                != j implies all[i] != all[j] by {
                if i < rest.len() {
                    assert(rest.contains(all[i]));
                }
                if j < rest.len() {
                    assert(rest.contains(all[j]));
                }
            }
            assert forall|x: Seq<char>| all.contains(x) implies #[trigger] names.contains(x) by {
                let i = choose|i: int| 0 <= i < all.len() && all[i] == x;
                if i < rest.len() {
                    assert(rest[i] == x);
                    assert(rest.contains(x));
                    assert(first.contains(x));
                    let at = choose|at: int| 0 <= at < first.len() && first[at] == x;
                    assert(names[at] == x);
                } else {
                    assert(names[names.len() - 1] == x);
                }
            }
            assert forall|x: Seq<char>| rest.contains(x) implies all.index_of(x) == rest.index_of(
                x,
            ) by {
                let i = rest.index_of(x);
                assert(all[i] == x);
                let j = all.index_of(x);
                assert(all.contains(x));
                assert(all[j] == x);
            }
            assert forall|x: Seq<char>, y: Seq<char>|
                all.contains(x) && all.contains(y) && names.index_of(x) < names.index_of(
                    y,
                ) implies all.index_of(x) < all.index_of(y) by {
                let i = choose|i: int| 0 <= i < all.len() && all[i] == x;
                let j = choose|j: int| 0 <= j < all.len() && all[j] == y;
                assert(names.contains(x) && names.contains(y));
                assert(names[names.index_of(x)] == x);
                assert(names[names.index_of(y)] == y);
                assert(names[names.len() - 1] == last);
                if i < rest.len() {
                    assert(rest.contains(x));
                }
                if j < rest.len() {
                    assert(rest.contains(y));
                }
                if x == last {
                    assert(names.index_of(x) == names.len() - 1);
                }
                if y == last {
                    assert(all[all.len() - 1] == y);
                    assert(all[all.index_of(y)] == y);
                }
            }
        } else {
            assert(all == rest);
            assert forall|x: Seq<char>| all.contains(x) implies #[trigger] names.contains(x) by {
                assert(rest.contains(x));
                assert(first.contains(x));
                let i = choose|i: int| 0 <= i < first.len() && first[i] == x;
                assert(names[i] == x);
            }
        }
    }
}

/// The names of distinct nodes of a well-formed graph, in an order of the
/// nodes: each name stands where its node stands.
pub proof fn lemma_names_at(g: GraphModel, ids: Seq<int>)
    requires
        g.wf(),
        ids.no_duplicates(),
        forall|i: int| 0 <= i < ids.len() ==> 0 <= #[trigger] ids[i] < g.nodes.len(),
    ensures
        names_at(g, ids).no_duplicates(),
        forall|id: int|
            0 <= id < g.nodes.len() ==> (names_at(g, ids).contains(#[trigger] g.nodes[id])
                <==> ids.contains(id)),
        forall|id: int|
            ids.contains(id) ==> names_at(g, ids).index_of(#[trigger] g.nodes[id]) == ids.index_of(
                id,
            ),
{
    let names = names_at(g, ids);
    assert forall|i: int, j: int| 0 <= i < names.len() && 0 <= j < names.len() && i
        != j implies names[i] != names[j] by {
        assert(ids[i] != ids[j]);
    }
    assert forall|id: int| 0 <= id < g.nodes.len() implies (names.contains(#[trigger] g.nodes[id])
        <==> ids.contains(id)) by {
        if names.contains(g.nodes[id]) {
            let i = choose|i: int| 0 <= i < names.len() && names[i] == g.nodes[id];
            assert(ids[i] == id);
        }
        if ids.contains(id) {
            let i = choose|i: int| 0 <= i < ids.len() && ids[i] == id;
            assert(names[i] == g.nodes[id]);
        }
    }
    assert forall|id: int| ids.contains(id) implies names.index_of(#[trigger] g.nodes[id])
        == ids.index_of(id) by {
        let i = ids.index_of(id);
        assert(names[i] == g.nodes[id]);
        let j = names.index_of(g.nodes[id]);
        assert(names[j] == g.nodes[id]);
    }
}

/// A list without duplicates, read backwards.
pub proof fn lemma_reverse(ids: Seq<int>)
    requires
        ids.no_duplicates(),
    ensures
        ids.reverse().no_duplicates(),
        ids.reverse().len() == ids.len(),
        forall|id: int| ids.reverse().contains(id) <==> ids.contains(id),
        forall|id: int|
            ids.contains(id) ==> #[trigger] ids.reverse().index_of(id) == ids.len() - 1
                - ids.index_of(id),
{
    let back = ids.reverse();
    assert forall|id: int| back.contains(id) <==> ids.contains(id) by {
        if back.contains(id) {
            let i = choose|i: int| 0 <= i < back.len() && back[i] == id;
            assert(ids[ids.len() - 1 - i] == id);
        }
        if ids.contains(id) {
            let i = choose|i: int| 0 <= i < ids.len() && ids[i] == id;
            assert(back[ids.len() - 1 - i] == id);
        }
    }
    assert forall|id: int| ids.contains(id) implies #[trigger] back.index_of(id) == ids.len() - 1
        - ids.index_of(id) by {
        let i = ids.index_of(id);
        assert(back[ids.len() - 1 - i] == id);
        let j = back.index_of(id);
        assert(back[j] == id);
        assert(ids[ids.len() - 1 - j] == id);
    }
}

/// Every root that has a node is among the nodes of the roots.
pub proof fn lemma_root_ids(g: GraphModel, roots: Seq<Seq<char>>)
    ensures
        forall|i: int|
            0 <= i < roots.len() && g.nodes.contains(#[trigger] roots[i]) ==> root_ids(
                g,
                roots,
            ).contains(g.id_of(roots[i])),
    decreases roots.len(),
{
    if roots.len() > 0 {
        let first = roots.drop_last();
        lemma_root_ids(g, first);
        let ids = root_ids(g, roots);
        assert forall|i: int| 0 <= i < roots.len() && g.nodes.contains(
            #[trigger] roots[i],
        ) implies ids.contains(g.id_of(roots[i])) by {
            if i < first.len() {
                assert(first[i] == roots[i]);
                let at = choose|at: int|
                    0 <= at < root_ids(g, first).len() && root_ids(g, first)[at] == g.id_of(
                        roots[i],
                    );
                assert(ids[at] == g.id_of(roots[i]));
            } else {
                assert(ids[ids.len() - 1] == g.id_of(roots[i]));
            }
        }
    }
}

/// Root containment: in the rebuild order with everything shown, no name
/// stands twice, and every root that has a node in the graph stands in it:
/// each such root appears exactly once.
pub proof fn law_roots_appear_once(g: GraphModel, roots: Seq<Seq<char>>, post: Seq<int>)
    requires
        g.wf(),
        is_post_order(g.nodes.len(), g.edges, root_ids(g, roots), post),
    ensures
        emitted(g, post, roots, false).no_duplicates(),
        forall|i: int|
            0 <= i < roots.len() && g.nodes.contains(#[trigger] roots[i]) ==> emitted(
                g,
                post,
                roots,
                false,
            ).contains(roots[i]),
{
    let back = post.reverse();
    lemma_reverse(post);
    lemma_names_at(g, back);
    lemma_kept_all(names_at(g, back), roots);
    lemma_root_ids(g, roots);
    assert forall|i: int| 0 <= i < roots.len() && g.nodes.contains(
        #[trigger] roots[i],
    ) implies names_at(g, back).contains(roots[i]) by {
        let id = g.id_of(roots[i]);
        assert(g.nodes[id] == roots[i]);
        let at = choose|at: int|
            0 <= at < root_ids(g, roots).len() && root_ids(g, roots)[at] == id;
        assert(post.contains(root_ids(g, roots)[at]));
        assert(back.contains(id));
    }
}

/// Roots-only filter correctness: with `roots_only`, the rebuild order
/// holds no name twice, and it holds exactly the roots that have a node in
/// the graph: every such root, and nothing that is not a root.
pub proof fn law_roots_only(g: GraphModel, roots: Seq<Seq<char>>, post: Seq<int>)
    requires
        g.wf(),
        is_post_order(g.nodes.len(), g.edges, root_ids(g, roots), post),
    ensures
        emitted(g, post, roots, true).no_duplicates(),
        forall|name: Seq<char>|
            emitted(g, post, roots, true).contains(name) <==> roots.contains(name)
                && g.nodes.contains(name),
{
    let back = post.reverse();
    let names = names_at(g, back);
    lemma_reverse(post);
    lemma_names_at(g, back);
    lemma_kept_roots(names, roots);
    lemma_root_ids(g, roots);
    assert forall|name: Seq<char>| emitted(g, post, roots, true).contains(name)
        <==> roots.contains(name) && g.nodes.contains(name) by {
        if names.contains(name) {
            let i = choose|i: int| 0 <= i < names.len() && names[i] == name;
            assert(g.nodes[back[i]] == name);
        }
        if roots.contains(name) && g.nodes.contains(name) {
            let i = choose|i: int| 0 <= i < roots.len() && roots[i] == name;
            let id = g.id_of(roots[i]);
            assert(g.nodes[id] == name);
            let at = choose|at: int|
                0 <= at < root_ids(g, roots).len() && root_ids(g, roots)[at] == id;
            assert(post.contains(root_ids(g, roots)[at]));
            assert(back.contains(id));
            assert(names.contains(g.nodes[id]));
        }
    }
}

/// No self-precedence, whatever is shown: where the packages at the source
/// and at the target of an edge both stand in the rebuild order, the target
/// stands later, unless a path of the graph leads back from the target to
/// the source.
pub proof fn law_shown_dependents_follow(
    g: GraphModel,
    roots: Seq<Seq<char>>,
    post: Seq<int>,
    roots_only: bool,
)
    requires
        g.wf(),
        is_post_order(g.nodes.len(), g.edges, root_ids(g, roots), post),
    ensures
        forall|k: int|
            0 <= k < g.edges.len() && emitted(g, post, roots, roots_only).contains(
                g.nodes[(#[trigger] g.edges[k]).0],
            ) && emitted(g, post, roots, roots_only).contains(g.nodes[g.edges[k].1]) ==> {
                let order = emitted(g, post, roots, roots_only);
                let from = g.nodes[g.edges[k].0];
                let to = g.nodes[g.edges[k].1];
                order.index_of(from) < order.index_of(to) || reaches(
                    g.edges,
                    g.edges[k].1,
                    g.edges[k].0,
                )
            },
{
    let back = post.reverse();
    let names = names_at(g, back);
    let all = emitted(g, post, roots, false);
    let order = emitted(g, post, roots, roots_only);
    lemma_reverse(post);
    lemma_names_at(g, back);
    lemma_kept_all(names, roots);
    lemma_kept_order(names, roots, roots_only);
    law_dependents_follow(g, roots, post);
    assert forall|k: int|
        0 <= k < g.edges.len() && order.contains(g.nodes[(#[trigger] g.edges[k]).0])
            && order.contains(g.nodes[g.edges[k].1]) implies order.index_of(g.nodes[g.edges[k].0])
        < order.index_of(g.nodes[g.edges[k].1]) || reaches(g.edges, g.edges[k].1, g.edges[k].0) by {
        let from = g.nodes[g.edges[k].0];
        let to = g.nodes[g.edges[k].1];
        assert(names.contains(from));
        assert(all.contains(from));
    }
}

/// No self-precedence: in the rebuild order with everything shown, where
/// the package at the source of an edge stands, the package at its target
/// stands too, and it stands later, unless a path of the graph leads back
/// from the target to the source, which is the one case of a cycle.
pub proof fn law_dependents_follow(g: GraphModel, roots: Seq<Seq<char>>, post: Seq<int>)
    requires
        g.wf(),
        is_post_order(g.nodes.len(), g.edges, root_ids(g, roots), post),
    ensures
        forall|k: int|
            0 <= k < g.edges.len() && emitted(g, post, roots, false).contains(
                g.nodes[(#[trigger] g.edges[k]).0],
            ) ==> {
                let order = emitted(g, post, roots, false);
                let from = g.nodes[g.edges[k].0];
                let to = g.nodes[g.edges[k].1];
                &&& order.contains(to)
                &&& (order.index_of(from) < order.index_of(to) || reaches(
                    g.edges,
                    g.edges[k].1,
                    g.edges[k].0,
                ))
            },
{
    let back = post.reverse();
    let order = emitted(g, post, roots, false);
    lemma_reverse(post);
    lemma_names_at(g, back);
    lemma_kept_all(names_at(g, back), roots);
    assert forall|k: int|
        0 <= k < g.edges.len() && order.contains(
            g.nodes[(#[trigger] g.edges[k]).0],
        ) implies order.contains(g.nodes[g.edges[k].1]) && (order.index_of(g.nodes[g.edges[k].0])
        < order.index_of(g.nodes[g.edges[k].1]) || reaches(g.edges, g.edges[k].1, g.edges[k].0)) by {
        let a = g.edges[k].0;
        let b = g.edges[k].1;
        assert(back.contains(a));
        assert(post.contains(a));
        assert(post.contains(b));
        assert(back.contains(b));
    }
}

/// A root that is not itself a virtual name of the roots has a node in
/// the rebuild graph.
pub proof fn law_root_has_node(
    index: IndexModel,
    owners: OwnerModel,
    roots: Seq<Seq<char>>,
    virtual_names: Seq<Seq<char>>,
    i: int,
)
    requires
        0 <= i < roots.len(),
        !owners.contains_key(roots[i]),
    ensures
        closure_graph(index, owners, roots + virtual_names).nodes.contains(roots[i]),
{
    let seeds = roots + virtual_names;
    let order = visit_order(index, seeds);
    law_closure_graph(index, owners, seeds);
    assert(order[i] == roots[i]);
    assert(resolve_in(owners, order[i]) == roots[i]);
    assert(visited_nodes(index, owners, order).contains(roots[i]));
    assert(node_names(closure_graph(index, owners, seeds)).contains(roots[i]));
}

/// Root containment, from the roots on: where no root is itself a virtual
/// name of the roots, every root appears exactly once in the rebuild order
/// with everything shown. A root that is a virtual name of another root has
/// no node of its own, and does not appear.
pub proof fn law_every_root_appears_once(
    index: IndexModel,
    owners: OwnerModel,
    roots: Seq<Seq<char>>,
    virtual_names: Seq<Seq<char>>,
    post: Seq<int>,
)
    requires
        forall|i: int| 0 <= i < roots.len() ==> !owners.contains_key(#[trigger] roots[i]),
        is_post_order(
            closure_graph(index, owners, roots + virtual_names).nodes.len(),
            closure_graph(index, owners, roots + virtual_names).edges,
            root_ids(closure_graph(index, owners, roots + virtual_names), roots),
            post,
        ),
    ensures
        emitted(closure_graph(index, owners, roots + virtual_names), post, roots, false).no_duplicates(),
        forall|i: int|
            0 <= i < roots.len() ==> emitted(
                closure_graph(index, owners, roots + virtual_names),
                post,
                roots,
                false,
            ).contains(#[trigger] roots[i]),
{
    let g = closure_graph(index, owners, roots + virtual_names);
    law_closure_graph(index, owners, roots + virtual_names);
    law_roots_appear_once(g, roots, post);
    assert forall|i: int| 0 <= i < roots.len() implies emitted(g, post, roots, false).contains(
        #[trigger] roots[i],
    ) by {
        law_root_has_node(index, owners, roots, virtual_names, i);
    }
}

/// No self-precedence, from the index on: let `dependent` depend on a
/// visited name. Where the real package behind that name stands in the
/// rebuild order with everything shown, the dependent stands there too, and
/// it stands later, unless a path of the graph leads back from the
/// dependent to the package. Names that are not visited are the
/// dependents of dependents: whatever depends on them has no edge.
pub proof fn law_dependent_follows_target(
    index: IndexModel,
    owners: OwnerModel,
    seeds: Seq<Seq<char>>,
    roots: Seq<Seq<char>>,
    post: Seq<int>,
    i: int,
    dependent: Seq<char>,
)
    requires
        0 <= i < visit_order(index, seeds).len(),
        dependents_in(index, visit_order(index, seeds)[i]).contains(dependent),
        is_post_order(
            closure_graph(index, owners, seeds).nodes.len(),
            closure_graph(index, owners, seeds).edges,
            root_ids(closure_graph(index, owners, seeds), roots),
            post,
        ),
        emitted(closure_graph(index, owners, seeds), post, roots, false).contains(
            resolve_in(owners, visit_order(index, seeds)[i]),
        ),
    ensures
        ({
            let g = closure_graph(index, owners, seeds);
            let order = emitted(g, post, roots, false);
            let target = resolve_in(owners, visit_order(index, seeds)[i]);
            &&& order.contains(dependent)
            &&& (order.index_of(target) < order.index_of(dependent) || reaches(
                g.edges,
                g.id_of(dependent),
                g.id_of(target),
            ))
        }),
{
    let g = closure_graph(index, owners, seeds);
    let target = resolve_in(owners, visit_order(index, seeds)[i]);
    law_closure_graph(index, owners, seeds);
    assert(visited_edges(index, owners, visit_order(index, seeds)).contains((target, dependent)));
    assert(edge_names(g).contains((target, dependent)));
    let k = choose|k: int|
        0 <= k < g.edges.len() && g.nodes[(#[trigger] g.edges[k]).0] == target
            && g.nodes[g.edges[k].1] == dependent;
    law_dependents_follow(g, roots, post);
    assert(g.nodes.contains(target));
    assert(g.nodes.contains(dependent));
    assert(g.id_of(target) == g.edges[k].0);
    assert(g.id_of(dependent) == g.edges[k].1);
}

/// Determinism: two runs on the same repositories, with the same roots in
/// the same order and the same options, yield the same rebuild order.
pub proof fn law_runs_agree(
    first: Rebuild,
    second: Rebuild,
    repos: Seq<Repository>,
    pkgnames: Seq<Seq<char>>,
    no_reverse_depends: bool,
    with_check_depends: bool,
)
    requires
        first.order@ == order_of(repos, pkgnames, no_reverse_depends, with_check_depends),
        second.order@ == order_of(repos, pkgnames, no_reverse_depends, with_check_depends),
    ensures
        first.order@ == second.order@,
{
}

} // verus!
