use arch_rebuild_order::args::{Args, DB_PATH, ROOT_DIR};
use arch_rebuild_order::closure::build_graph;
use arch_rebuild_order::dot::dotfile_text;
use arch_rebuild_order::error::RebuildOrderError;
use arch_rebuild_order::graph::RebuildGraph;
use arch_rebuild_order::index::{get_reverse_deps_map, ReverseDeps};
use arch_rebuild_order::name_map::NameMap;
use arch_rebuild_order::name_set::NameSet;
use arch_rebuild_order::names::{join_names, lower_bound};
use arch_rebuild_order::order::{emit_order, has_name, rebuild_order, root_nodes};
use arch_rebuild_order::package::{Package, Repository};
use arch_rebuild_order::provides::{find_package_anywhere, find_roots, Provides};

fn text(name: &str) -> String {
    name.to_string()
}

fn list(names: &[&str]) -> Vec<String> {
    names.iter().map(|name| name.to_string()).collect()
}

fn pkg(name: &str, depends: &[&str], makedepends: &[&str], checkdepends: &[&str], provides: &[&str]) -> Package {
    Package {
        name: text(name),
        depends: list(depends),
        makedepends: list(makedepends),
        checkdepends: list(checkdepends),
        provides: list(provides),
    }
}

fn repo(name: &str, packages: Vec<Package>) -> Repository {
    Repository { name: text(name), packages }
}

fn members(set: &NameSet) -> Vec<String> {
    (0..set.len()).map(|i| set.name(i).clone()).collect()
}

fn dependents(index: &ReverseDeps, target: &str) -> Option<Vec<String>> {
    index.get(&text(target)).map(members)
}

#[test]
fn name_set_keeps_names_ascending_and_once() {
    let mut set = NameSet::new();
    assert_eq!(set.len(), 0);
    assert!(set.insert(text("pacman")));
    assert!(set.insert(text("bash")));
    assert!(set.insert(text("zlib")));
    assert!(!set.insert(text("bash")));
    assert!(set.insert(text("bas")));
    assert!(set.insert(text("Zlib")));
    assert_eq!(members(&set), list(&["Zlib", "bas", "bash", "pacman", "zlib"]));
    assert!(set.contains(&text("zlib")));
    assert!(!set.contains(&text("zli")));
    assert!(!set.contains(&text("")));
}

#[test]
fn names_compare_by_characters() {
    let names = list(&["", "a", "a-b", "ab", "b", "é", "日本"]);
    for (at, name) in names.iter().enumerate() {
        assert_eq!(lower_bound(&names, name), at);
    }
    assert_eq!(lower_bound(&names, &text("aa")), 3);
    assert_eq!(lower_bound(&names, &text("z")), 5);
    assert_eq!(lower_bound(&names, &text("日本語")), 7);
    assert_eq!(lower_bound(&Vec::new(), &text("a")), 0);
}

#[test]
fn name_map_finds_and_replaces() {
    let mut map: NameMap<usize> = NameMap::new();
    assert_eq!(map.len(), 0);
    assert_eq!(map.get(&text("a")), None);
    map.insert(text("m"), 1);
    map.insert(text("a"), 2);
    map.insert(text("z"), 3);
    assert_eq!(map.len(), 3);
    assert_eq!(map.get(&text("a")), Some(&2));
    assert_eq!(map.find(&text("m")), Some(1));
    assert_eq!(map.key_at(2), "z");
    assert_eq!(*map.value_at(2), 3);
    map.insert(text("m"), 7);
    assert_eq!(map.len(), 3);
    assert_eq!(map.get(&text("m")), Some(&7));
    *map.value_at_mut(0) = 9;
    assert_eq!(map.get(&text("a")), Some(&9));
    assert_eq!(map.find(&text("b")), None);
}

#[test]
fn index_records_each_dependent_once() {
    let mut index = ReverseDeps::new();
    assert_eq!(dependents(&index, "glibc"), None);
    index.record(&text("glibc"), &text("zsh"));
    index.record(&text("glibc"), &text("bash"));
    index.record(&text("glibc"), &text("zsh"));
    index.record(&text("bash"), &text("zsh"));
    assert_eq!(dependents(&index, "glibc"), Some(list(&["bash", "zsh"])));
    assert_eq!(dependents(&index, "bash"), Some(list(&["zsh"])));
    assert_eq!(dependents(&index, "zsh"), None);
}

#[test]
fn index_of_repositories() {
    let repos = vec![
        repo("core", vec![
            pkg("bash", &["glibc", "readline"], &[], &["check"], &[]),
            pkg("glibc", &[], &[], &[], &[]),
        ]),
        repo("extra", vec![
            pkg("zsh", &["glibc"], &["bash", "glibc"], &[], &["sh"]),
            pkg("bash", &["ncurses"], &[], &[], &[]),
        ]),
    ];
    let index = get_reverse_deps_map(&repos, false);
    assert_eq!(dependents(&index, "glibc"), Some(list(&["bash", "zsh"])));
    assert_eq!(dependents(&index, "readline"), Some(list(&["bash"])));
    assert_eq!(dependents(&index, "ncurses"), Some(list(&["bash"])));
    assert_eq!(dependents(&index, "bash"), Some(list(&["zsh"])));
    assert_eq!(dependents(&index, "check"), None);
    assert_eq!(dependents(&index, "sh"), None);
    let with_check = get_reverse_deps_map(&repos, true);
    assert_eq!(dependents(&with_check, "check"), Some(list(&["bash"])));
    assert_eq!(dependents(&with_check, "glibc"), Some(list(&["bash", "zsh"])));
    let empty = get_reverse_deps_map(&Vec::new(), true);
    assert_eq!(dependents(&empty, "glibc"), None);
}

#[test]
fn lookup_takes_the_first_match() {
    let repos = vec![
        repo("core", vec![pkg("a", &["x"], &[], &[], &[]), pkg("b", &[], &[], &[], &[])]),
        repo("extra", vec![pkg("b", &["y"], &[], &[], &[]), pkg("c", &[], &[], &[], &[])]),
    ];
    assert_eq!(find_package_anywhere(&text("b"), &repos).unwrap().depends.len(), 0);
    assert_eq!(find_package_anywhere(&text("c"), &repos).unwrap().name, "c");
    assert!(matches!(
        find_package_anywhere(&text("d"), &repos),
        Err(RebuildOrderError::PackageNotFound)
    ));
    let roots = find_roots(&list(&["c", "a"]), &repos).unwrap();
    assert_eq!(roots.len(), 2);
    assert_eq!(roots[0].name, "c");
    assert_eq!(roots[1].depends, list(&["x"]));
    assert!(matches!(
        find_roots(&list(&["a", "d", "c"]), &repos),
        Err(RebuildOrderError::PackageNotFound)
    ));
    assert_eq!(find_roots(&Vec::new(), &repos).unwrap().len(), 0);
}

#[test]
fn provides_last_write_wins() {
    let first = pkg("first", &[], &[], &[], &["sh", "editor"]);
    let second = pkg("second", &[], &[], &[], &["editor"]);
    let provides = Provides::of(&vec![&first, &second]);
    assert_eq!(provides.names_in_order(), &list(&["sh", "editor", "editor"]));
    let sh = text("sh");
    let editor = text("editor");
    let other = text("first");
    assert_eq!(provides.real_name(&sh), "first");
    assert_eq!(provides.real_name(&editor), "second");
    assert_eq!(provides.real_name(&other), "first");
    let none = Provides::of(&Vec::new());
    assert_eq!(none.names_in_order().len(), 0);
    assert_eq!(none.real_name(&sh), "sh");
}

#[test]
fn graph_holds_each_name_and_edge_once() {
    let mut graph = RebuildGraph::new();
    assert_eq!(graph.node_count(), 0);
    assert_eq!(graph.node_for(&text("b")), Some(0));
    assert_eq!(graph.node_for(&text("a")), Some(1));
    assert_eq!(graph.node_for(&text("b")), Some(0));
    assert_eq!(graph.node_count(), 2);
    assert_eq!(graph.id_of(&text("a")), Some(1));
    assert_eq!(graph.id_of(&text("c")), None);
    assert_eq!(graph.name_of(0), "b");
    assert!(graph.link(1, 0));
    assert!(graph.link(1, 0));
    assert!(graph.link(0, 0));
    assert_eq!(
        dotfile_text(&graph),
        "digraph {\n    0 [ label = \"b\" ]\n    1 [ label = \"a\" ]\n    1 -> 0 [ ]\n    0 -> 0 [ ]\n}\n"
    );
}

#[test]
fn build_graph_visits_seeds_then_their_dependents() {
    let repos = vec![repo("core", vec![
        pkg("lib", &[], &[], &[], &["libvirt"]),
        pkg("tool", &["lib"], &[], &[], &[]),
        pkg("app", &["libvirt", "tool"], &[], &[], &[]),
        pkg("gui", &["app"], &[], &[], &[]),
    ])];
    let index = get_reverse_deps_map(&repos, false);
    let roots = find_roots(&list(&["lib"]), &repos).unwrap();
    let provides = Provides::of(&roots);
    let graph = build_graph(&list(&["lib"]), &index, &provides).unwrap();
    assert_eq!(
        dotfile_text(&graph),
        "digraph {\n    0 [ label = \"lib\" ]\n    1 [ label = \"tool\" ]\n    2 [ label = \"app\" ]\n    3 [ label = \"gui\" ]\n    0 -> 1 [ ]\n    0 -> 2 [ ]\n    1 -> 2 [ ]\n    2 -> 3 [ ]\n}\n"
    );
    let again = build_graph(&list(&["lib"]), &index, &provides).unwrap();
    assert_eq!(dotfile_text(&graph), dotfile_text(&again));
    assert_eq!(rebuild_order(&graph, &list(&["lib"]), false), list(&["lib", "tool", "app", "gui"]));
}

#[test]
fn emit_order_reverses_and_filters() {
    let mut graph = RebuildGraph::new();
    for name in ["a", "b", "c", "d"] {
        graph.node_for(&text(name));
    }
    let post = vec![3, 1, 0];
    assert_eq!(emit_order(&graph, &post, &list(&["b", "x"]), false), list(&["a", "b", "d"]));
    assert_eq!(emit_order(&graph, &post, &list(&["d", "x", "a"]), true), list(&["a", "d"]));
    assert_eq!(emit_order(&graph, &post, &Vec::new(), true), Vec::<String>::new());
    assert_eq!(emit_order(&graph, &Vec::new(), &list(&["a"]), false), Vec::<String>::new());
    assert_eq!(root_nodes(&graph, &list(&["c", "x", "a", "c"])), vec![2, 0, 2]);
    assert!(has_name(&list(&["a", "b"]), &text("b")));
    assert!(!has_name(&list(&["a", "b"]), &text("c")));
}

#[test]
fn root_without_a_node_is_left_out() {
    let repos = vec![repo("core", vec![
        pkg("real", &[], &[], &[], &["alias"]),
        pkg("alias", &[], &[], &[], &[]),
        pkg("user", &["alias"], &[], &[], &[]),
    ])];
    let roots = list(&["real", "alias"]);
    let index = get_reverse_deps_map(&repos, false);
    let provides = Provides::of(&find_roots(&roots, &repos).unwrap());
    let graph = build_graph(&roots, &index, &provides).unwrap();
    assert_eq!(graph.id_of(&text("alias")), None);
    assert_eq!(rebuild_order(&graph, &roots, false), list(&["real", "user"]));
    assert_eq!(rebuild_order(&graph, &roots, true), list(&["real"]));
}

#[test]
fn join_puts_one_space_between_names() {
    assert_eq!(join_names(&Vec::new()), "");
    assert_eq!(join_names(&list(&["a"])), "a");
    assert_eq!(join_names(&list(&["a", "", "b c"])), "a  b c");
}

#[test]
fn error_messages() {
    assert_eq!(RebuildOrderError::PackageNotFound.message(), "package not found");
    assert_eq!(
        RebuildOrderError::PacmanDbInit(text("no such file")).message(),
        "could not initialize pacman db: `no such file`"
    );
    assert_eq!(
        RebuildOrderError::DotfileError(text("denied")).message(),
        "could not write to file: `denied`"
    );
    assert_eq!(RebuildOrderError::Unknown.message(), "unknown error");
}

fn next_number(state: &mut u64) -> usize {
    *state = state.wrapping_mul(6364136223846793005).wrapping_add(1442695040888963407);
    (*state >> 33) as usize
}

fn reaches(edges: &[(usize, usize)], nodes: usize, from: usize, to: usize) -> bool {
    let mut seen = vec![false; nodes];
    let mut todo = vec![from];
    seen[from] = true;
    while let Some(at) = todo.pop() {
        if at == to {
            return true;
        }
        for (a, b) in edges {
            if *a == at && !seen[*b] {
                seen[*b] = true;
                todo.push(*b);
            }
        }
    }
    false
}

#[test]
fn walk_is_a_post_order_on_many_graphs() {
    let mut state: u64 = 2024;
    for round in 0..400 {
        let nodes = 1 + next_number(&mut state) % 9;
        let mut graph = RebuildGraph::new();
        for id in 0..nodes {
            assert_eq!(graph.node_for(&format!("n{}", id)), Some(id));
        }
        let mut edges: Vec<(usize, usize)> = Vec::new();
        for _ in 0..next_number(&mut state) % (2 * nodes + 1) {
            let edge = (next_number(&mut state) % nodes, next_number(&mut state) % nodes);
            assert!(graph.link(edge.0, edge.1));
            if !edges.contains(&edge) {
                edges.push(edge);
            }
        }
        let mut roots: Vec<String> = Vec::new();
        for _ in 0..1 + next_number(&mut state) % 3 {
            roots.push(format!("n{}", next_number(&mut state) % nodes));
        }
        let order = rebuild_order(&graph, &roots, false);
        let place = |id: usize| order.iter().position(|name| *name == format!("n{}", id));
        for (at, name) in order.iter().enumerate() {
            assert_eq!(order.iter().position(|other| other == name), Some(at), "round {}", round);
        }
        for root in &roots {
            assert!(order.contains(root), "round {}", round);
        }
        for name in &order {
            let id: usize = name[1..].parse().unwrap();
            let from_root = roots.iter().any(|root| {
                reaches(&edges, nodes, root[1..].parse().unwrap(), id)
            });
            assert!(from_root, "round {}", round);
        }
        for (a, b) in &edges {
            if let Some(source) = place(*a) {
                let target = place(*b).unwrap();
                assert!(source < target || reaches(&edges, nodes, *b, *a), "round {}", round);
            }
        }
        let shown = rebuild_order(&graph, &roots, true);
        for name in &shown {
            assert!(roots.contains(name));
        }
        for root in &roots {
            assert_eq!(shown.iter().filter(|name| *name == root).count(), 1);
        }
    }
}

#[test]
fn database_path_falls_back_to_the_default() {
    let mut args = Args {
        pkgnames: list(&["bash"]),
        repos: list(&["core", "extra"]),
        dbpath: None,
        dotfile: None,
        no_reverse_depends: false,
        with_check_depends: false,
    };
    assert_eq!(args.database_path(), "/var/lib/pacman/");
    assert_eq!(DB_PATH, "/var/lib/pacman/");
    assert_eq!(ROOT_DIR, "/");
    args.dbpath = Some(text("/tmp/db"));
    assert_eq!(args.database_path(), "/tmp/db");
}
