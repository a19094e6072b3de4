use std::collections::{HashMap, HashSet, VecDeque};

use arch_rebuild_order::package::{Package, Repository};
use arch_rebuild_order::run;
use petgraph::graph::{DiGraph, NodeIndex};
use petgraph::visit::DfsPostOrder;

/// A plain model of the whole computation on hash maps and hash sets, whose
/// order of iteration changes from one process to the next.
fn model(repos: &[Repository], roots: &[String], roots_only: bool, with_check: bool) -> Option<String> {
    let mut dependents: HashMap<&str, HashSet<&str>> = HashMap::new();
    for repo in repos {
        for package in &repo.packages {
            let mut targets: Vec<&String> = package.depends.iter().collect();
            targets.extend(package.makedepends.iter());
            if with_check {
                targets.extend(package.checkdepends.iter());
            }
            for target in targets {
                dependents.entry(target.as_str()).or_default().insert(package.name.as_str());
            }
        }
    }

    let mut frontier: VecDeque<&str> = roots.iter().map(|root| root.as_str()).collect();
    let mut owner: HashMap<&str, &str> = HashMap::new();
    for root in roots {
        let package = repos
            .iter()
            .find_map(|repo| repo.packages.iter().find(|package| package.name == *root))?;
        for name in &package.provides {
            frontier.push_back(name.as_str());
            owner.insert(name.as_str(), package.name.as_str());
        }
    }

    let mut graph: DiGraph<&str, u16> = DiGraph::new();
    let mut node_of: HashMap<&str, NodeIndex> = HashMap::new();
    let mut marked: HashSet<&str> = HashSet::new();
    while let Some(name) = frontier.pop_front() {
        let package = *owner.get(name).unwrap_or(&name);
        let from = *node_of.entry(package).or_insert_with(|| graph.add_node(package));
        let Some(found) = dependents.get(name) else {
            continue;
        };
        if !marked.contains(name) {
            frontier.extend(found.iter().copied());
        }
        let mut ascending: Vec<&str> = found.iter().copied().collect();
        ascending.sort();
        for dependent in ascending {
            let to = *node_of.entry(dependent).or_insert_with(|| graph.add_node(dependent));
            if !graph.contains_edge(from, to) {
                graph.add_edge(from, to, 1);
            }
        }
        marked.extend(found.iter().copied());
    }

    let mut walk = DfsPostOrder::empty(&graph);
    walk.stack.extend(roots.iter().filter_map(|root| node_of.get(root.as_str())));
    let mut order: Vec<&str> = Vec::new();
    while let Some(node) = walk.next(&graph) {
        order.push(graph[node]);
    }
    order.reverse();
    order.retain(|name| !roots_only || roots.iter().any(|root| root == name));
    Some(order.join(" "))
}

fn next_number(state: &mut u64) -> usize {
    *state = state.wrapping_mul(6364136223846793005).wrapping_add(1442695040888963407);
    (*state >> 33) as usize
}

fn some_names(state: &mut u64, pool: &[String], at_most: usize) -> Vec<String> {
    (0..next_number(state) % (at_most + 1))
        .map(|_| pool[next_number(state) % pool.len()].clone())
        .collect()
}

fn some_repositories(state: &mut u64) -> (Vec<Repository>, Vec<String>) {
    let packages = 1 + next_number(state) % 8;
    let real: Vec<String> = (0..packages).map(|i| format!("pkg{}", i)).collect();
    let mut pool = real.clone();
    pool.extend((0..3).map(|i| format!("virt{}", i)));
    pool.push("pkg1".to_string());
    let mut repos = vec![
        Repository { name: "core".to_string(), packages: Vec::new() },
        Repository { name: "extra".to_string(), packages: Vec::new() },
    ];
    for name in &real {
        let package = Package {
            name: name.clone(),
            depends: some_names(state, &pool, 3),
            makedepends: some_names(state, &pool, 2),
            checkdepends: some_names(state, &pool, 2),
            provides: some_names(state, &pool[packages..], 2),
        };
        repos[next_number(state) % 2].packages.push(package);
    }
    (repos, real)
}

#[test]
fn library_agrees_with_the_model() {
    let mut state: u64 = 7;
    let mut longest = 0;
    for round in 0..1500 {
        let (repos, real) = some_repositories(&mut state);
        let mut roots = some_names(&mut state, &real, 3);
        if roots.is_empty() {
            roots.push(real[0].clone());
        }
        let roots_only = next_number(&mut state) % 4 == 0;
        let with_check = next_number(&mut state) % 2 == 0;
        let expected = model(&repos, &roots, roots_only, with_check).unwrap();
        let found = run(roots.clone(), &repos, false, roots_only, with_check).unwrap().order;
        assert_eq!(found, expected, "round {} roots {:?} repos {:?}", round, roots, repos);
        longest = longest.max(found.split(' ').count());
    }
    assert!(longest >= 6);
}

#[test]
fn library_and_model_agree_on_unknown_roots() {
    let mut state: u64 = 11;
    for _ in 0..50 {
        let (repos, _) = some_repositories(&mut state);
        let roots = vec!["pkg0".to_string(), "nowhere".to_string()];
        assert!(model(&repos, &roots, false, false).is_none());
        assert!(run(roots, &repos, false, false, false).is_err());
    }
}
