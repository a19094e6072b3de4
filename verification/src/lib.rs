//! Rebuild order of packages: which packages have to be rebuilt after a set
//! of root packages, and in which order.

use crate::closure::{build_graph, closure_graph};
use crate::dot::{dot_text, dotfile_text};
use crate::error::RebuildOrderError;
use crate::graph::GraphModel;
use crate::index::{get_reverse_deps_map, index_of};
use crate::names::{join_names, joined, names_of};
use crate::order::{is_walked, rebuild_order, rebuild_order_of};
use crate::package::Repository;
use crate::provides::{all_known, find_roots, lookup_all, owners_of, virtual_names, Provides};
use vstd::prelude::*;

pub mod args;
pub mod closure;
pub mod dot;
pub mod error;
pub mod graph;
pub mod graph_laws;
pub mod index;
pub mod laws;
pub mod name_map;
pub mod name_set;
pub mod names;
pub mod order;
pub mod package;
pub mod provides;

verus! {

/// What a run yields.
#[derive(Debug)]
pub struct Rebuild {
    /// The rebuild order: the names, joined by single spaces
    pub order: String,
    /// The rebuild graph as the text of a dotfile, where it was asked for
    pub dotfile: Option<String>,
}

/// The rebuild graph of the roots in the repositories.
pub open spec fn graph_of(
    repos: Seq<Repository>,
    pkgnames: Seq<Seq<char>>,
    with_check_depends: bool,
) -> GraphModel {
    let roots = lookup_all(repos, pkgnames);
    closure_graph(
        index_of(repos, with_check_depends),
        owners_of(roots),
        pkgnames + virtual_names(roots),
    )
}

/// The rebuild order of the roots in the repositories, as one line.
pub open spec fn order_of(
    repos: Seq<Repository>,
    pkgnames: Seq<Seq<char>>,
    no_reverse_depends: bool,
    with_check_depends: bool,
) -> Seq<char> {
    joined(
        rebuild_order_of(
            graph_of(repos, pkgnames, with_check_depends),
            pkgnames,
            no_reverse_depends,
        ),
    )
}

/// Computes the rebuild order of the provided package(s) from what the
/// repositories record, and the dotfile of the rebuild graph where
/// `dotfile` asks for it. A root that no repository knows is reported as
/// not found; a graph beyond what the graph library can number as an
/// unknown error.
pub fn run(
    pkgnames: Vec<String>,
    repos: &Vec<Repository>,
    dotfile: bool,
    no_reverse_depends: bool,
    with_check_depends: bool,
) -> (result: Result<Rebuild, RebuildOrderError>)
    ensures
        result is Ok <==> all_known(repos@, names_of(pkgnames@)) && graph_of(
            repos@,
            names_of(pkgnames@),
            with_check_depends,
        ).fits(),
        result is Ok ==> result->Ok_0.order@ == order_of(
            repos@,
            names_of(pkgnames@),
            no_reverse_depends,
            with_check_depends,
        ),
        result is Ok ==> (result->Ok_0.dotfile is Some <==> dotfile),
        result is Ok && dotfile ==> result->Ok_0.dotfile->0@ == dot_text(
            graph_of(repos@, names_of(pkgnames@), with_check_depends).nodes,
            graph_of(repos@, names_of(pkgnames@), with_check_depends).edges,
        ),
        result is Ok ==> is_walked(
            graph_of(repos@, names_of(pkgnames@), with_check_depends),
            names_of(pkgnames@),
        ),
        result is Err ==> (result->Err_0 is PackageNotFound <==> !all_known(
            repos@,
            names_of(pkgnames@),
        )),
        result is Err ==> (result->Err_0 is Unknown <==> all_known(repos@, names_of(pkgnames@))),
{
    let reverse_deps_map = get_reverse_deps_map(repos, with_check_depends);
    let roots = match find_roots(&pkgnames, repos) {
        Ok(roots) => roots,
        Err(e) => {
            return Err(e);
        },
    };
    let provides = Provides::of(&roots);
    let graph = match build_graph(&pkgnames, &reverse_deps_map, &provides) {
        Some(graph) => graph,
        None => {
            return Err(RebuildOrderError::Unknown);
        },
    };
    let rebuild_order_packages = rebuild_order(&graph, &pkgnames, no_reverse_depends);
    let text = if dotfile {
        Some(dotfile_text(&graph))
    } else {
        None
    };
    Ok(Rebuild { order: join_names(&rebuild_order_packages), dotfile: text })
}

} // verus!
