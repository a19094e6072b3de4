use arch_rebuild_order::error::RebuildOrderError;
use arch_rebuild_order::package::{Package, Repository};
use arch_rebuild_order::run;

fn names(list: &[&str]) -> Vec<String> {
    list.iter().map(|name| name.to_string()).collect()
}

fn package(
    name: &str,
    depends: &[&str],
    makedepends: &[&str],
    provides: &[&str],
    checkdepends: &[&str],
) -> Package {
    Package {
        name: name.to_string(),
        depends: names(depends),
        makedepends: names(makedepends),
        checkdepends: names(checkdepends),
        provides: names(provides),
    }
}

fn repository(packages: Vec<Package>) -> Vec<Repository> {
    vec![Repository { name: "test".to_string(), packages }]
}

fn order(repos: &Vec<Repository>, roots: &[&str], roots_only: bool, with_check: bool) -> String {
    run(names(roots), repos, false, roots_only, with_check).unwrap().order
}

fn multiple_pkgnames() -> Vec<Repository> {
    repository(vec![
        package("testpkg1", &[], &[], &[], &[]),
        package("testpkg2", &["testpkg1"], &[], &[], &[]),
        package("testpkg3", &["testpkg1"], &[], &[], &[]),
        package("testpkg4", &["testpkg2"], &[], &[], &[]),
    ])
}

fn reverse_check_deps() -> Vec<Repository> {
    repository(vec![
        package("testpkg1", &[], &[], &[], &[]),
        package("testpkg2", &[], &[], &[], &["testpkg1"]),
    ])
}

/// A package without any reverse dependencies should only print the given package
#[test]
fn test_no_reverse_deps() {
    let repos = repository(vec![package("testpkg1", &[], &[], &[], &[])]);
    let res = order(&repos, &["testpkg1"], false, false);
    assert_eq!("testpkg1", res.trim());
}

/// Given a package 'testpkg1' with a reverse dependency on 'testpkg2', the rebuild order should be
/// 'testpkg1 testpkg2'
#[test]
fn test_reverse_deps() {
    let repos = repository(vec![
        package("testpkg1", &[], &[], &[], &[]),
        package("testpkg2", &["testpkg1"], &[], &[], &[]),
    ]);
    let res = order(&repos, &["testpkg1"], false, false);
    let res_pkgs: Vec<&str> = res.trim().split_ascii_whitespace().collect();
    assert_eq!(vec!["testpkg1", "testpkg2"], res_pkgs);
}

/// Given a package 'testpkg1' with a reverse make dependency on 'testpkg2', the rebuild order
/// should be 'testpkg1 testpkg2'
#[test]
fn test_reverse_make_deps() {
    let repos = repository(vec![
        package("testpkg1", &[], &[], &[], &[]),
        package("testpkg2", &[], &["testpkg1"], &[], &[]),
    ]);
    let res = order(&repos, &["testpkg1"], false, false);
    let res_pkgs: Vec<&str> = res.trim().split_ascii_whitespace().collect();
    assert_eq!(vec!["testpkg1", "testpkg2"], res_pkgs);
}

/// Given a package 'testpkg1' with a reverse check dependency on 'testpkg2', the rebuild order
/// should be 'testpkg1' as check dependencies were not asked for
#[test]
fn test_reverse_check_deps_default() {
    let repos = reverse_check_deps();
    let res = order(&repos, &["testpkg1"], false, false);
    let res_pkgs: Vec<&str> = res.trim().split_ascii_whitespace().collect();
    assert_eq!(vec!["testpkg1".to_string()], res_pkgs);
}

/// Given a package 'testpkg1' with a reverse check dependency on 'testpkg2', the rebuild order
/// should be 'testpkg1 testpkg2'
#[test]
fn test_reverse_check_deps() {
    let repos = reverse_check_deps();
    let res = order(&repos, &["testpkg1"], false, true);
    let res_pkgs: Vec<&str> = res.trim().split_ascii_whitespace().collect();
    assert_eq!(vec!["testpkg1", "testpkg2"], res_pkgs);
}

/// Given a package 'testpkg1' which provides 'pkg1' where 'testpkg2' make depends on 'pkg1',
/// the rebuild order should be 'testpkg1 testpkg2'
#[test]
fn test_provides_make_depends() {
    let repos = repository(vec![
        package("testpkg1", &[], &[], &["pkg1"], &[]),
        package("testpkg2", &[], &["pkg1"], &[], &[]),
    ]);
    let res = order(&repos, &["testpkg1"], false, false);
    let res_pkgs: Vec<&str> = res.trim().split_ascii_whitespace().collect();
    assert_eq!(vec!["testpkg1", "testpkg2"], res_pkgs);
}

/// Given a package 'testpkg1' with a reverse dependency of 'testpkg2' and 'testpkg3', the rebuild
/// order should start with 'testpkg1'
#[test]
fn test_multiple_deps() {
    let repos = repository(vec![
        package("testpkg3", &["testpkg1", "testpkg2"], &[], &[], &[]),
        package("testpkg2", &["testpkg1"], &[], &[], &[]),
        package("testpkg1", &[], &[], &[], &[]),
    ]);
    let res = order(&repos, &["testpkg3"], false, false);
    let res_pkgs: Vec<&str> = res.trim().split_ascii_whitespace().collect();
    assert_eq!("testpkg3", res_pkgs[0]);
}

/// Given a package 'testpkg1' with a reverse dependency of 'testpkg2' which has a reverse
/// dependency on 'testpkg3' the rebuild order should start with 'testpkg1'
#[test]
fn test_dependency_depth() {
    let repos = repository(vec![
        package("testpkg1", &[], &[], &[], &[]),
        package("testpkg2", &[], &["testpkg1"], &[], &[]),
        package("testpkg3", &[], &["testpkg2"], &[], &[]),
    ]);
    let res = order(&repos, &["testpkg1"], false, false);
    let res_pkgs: Vec<&str> = res.trim().split_ascii_whitespace().collect();
    assert_eq!("testpkg1", res_pkgs[0]);
}

/// Given a package 'testpkg1' with a dependency on 'testpkg2' and 'testpkg2' having a dependency
/// on 'testpkg1'. Providing 'testpkg1' should return 'testpkg1 testpkg2'
#[test]
fn test_dependency_cycle() {
    let repos = repository(vec![
        package("testpkg1", &["testpkg2"], &[], &[], &[]),
        package("testpkg2", &["testpkg1"], &[], &[], &[]),
    ]);
    let res = order(&repos, &["testpkg1"], false, false);
    let res_pkgs: Vec<&str> = res.trim().split_ascii_whitespace().collect();
    assert_eq!("testpkg1", res_pkgs[0]);
}

/// Given two packages names as input, with testpkg1 being a reverse dependency for testpkg2 and
/// testpkg3 and testpkg4 being a dependency of testpkg2. Providing "testpkg1 testpkg2" should
/// return "testpkg1 testpkg3 testpkg2 testpkg4"
#[test]
fn test_multiple_pkgnames() {
    let repos = multiple_pkgnames();
    let res = order(&repos, &["testpkg1", "testpkg2"], false, false);
    let res_pkgs: Vec<&str> = res.trim().split_ascii_whitespace().collect();
    let expected = vec!["testpkg1", "testpkg3", "testpkg2", "testpkg4"];
    assert_eq!(res_pkgs, expected);
}

/// Given two packages names as input, with testpkg1 being a reverse dependency for testpkg2 and
/// testpkg3 and testpkg4 being a dependency of testpkg2. Providing "testpkg1 testpkg2" in
/// combination with the no reverse dependenies flag should
/// return "testpkg1 testpkg2"
#[test]
fn test_no_reverse_deps_flag() {
    let repos = multiple_pkgnames();
    let res = order(&repos, &["testpkg1", "testpkg2"], true, false);
    let res_pkgs: Vec<&str> = res.trim().split_ascii_whitespace().collect();
    let expected = vec!["testpkg1", "testpkg2"];
    assert_eq!(res_pkgs, expected);
}

#[test]
fn order_is_joined_by_single_spaces() {
    let repos = multiple_pkgnames();
    assert_eq!(
        order(&repos, &["testpkg1", "testpkg2"], false, false),
        "testpkg1 testpkg3 testpkg2 testpkg4"
    );
    assert_eq!(order(&repos, &["testpkg4"], false, false), "testpkg4");
}

#[test]
fn cycle_yields_each_name_once_root_first() {
    let repos = repository(vec![
        package("testpkg1", &["testpkg2"], &[], &[], &[]),
        package("testpkg2", &["testpkg1"], &[], &[], &[]),
    ]);
    assert_eq!(order(&repos, &["testpkg1"], false, false), "testpkg1 testpkg2");
    assert_eq!(order(&repos, &["testpkg2"], false, false), "testpkg2 testpkg1");
}

#[test]
fn package_that_depends_on_itself() {
    let repos = repository(vec![package("testpkg1", &["testpkg1"], &[], &[], &[])]);
    assert_eq!(order(&repos, &["testpkg1"], false, false), "testpkg1");
}

#[test]
fn virtual_name_never_appears() {
    let repos = repository(vec![
        package("testpkg1", &[], &[], &["pkg1"], &[]),
        package("testpkg2", &[], &["pkg1"], &[], &[]),
        package("testpkg3", &["testpkg1"], &[], &[], &[]),
    ]);
    let out = run(names(&["testpkg1"]), &repos, true, false, false).unwrap();
    assert_eq!(out.order, "testpkg1 testpkg2 testpkg3");
    assert!(!out.dotfile.unwrap().contains("\"pkg1\""));
}

#[test]
fn unknown_root_is_not_found() {
    let repos = multiple_pkgnames();
    let res = run(names(&["testpkg1", "nosuchpkg"]), &repos, false, false, false);
    assert!(matches!(res, Err(RebuildOrderError::PackageNotFound)));
    let res = run(names(&["nosuchpkg"]), &Vec::new(), false, false, false);
    assert!(matches!(res, Err(RebuildOrderError::PackageNotFound)));
}

#[test]
fn no_roots_no_order() {
    let repos = multiple_pkgnames();
    let out = run(Vec::new(), &repos, true, false, false).unwrap();
    assert_eq!(out.order, "");
    assert_eq!(out.dotfile.unwrap(), "digraph {\n}\n");
}

#[test]
fn repeated_runs_agree() {
    let repos = multiple_pkgnames();
    let first = run(names(&["testpkg1", "testpkg2"]), &repos, true, false, false).unwrap();
    let second = run(names(&["testpkg1", "testpkg2"]), &repos, true, false, false).unwrap();
    assert_eq!(first.order, second.order);
    assert_eq!(first.dotfile, second.dotfile);
}

#[test]
fn order_does_not_depend_on_listing_order() {
    let forwards = multiple_pkgnames();
    let mut packages = multiple_pkgnames().remove(0).packages;
    packages.reverse();
    let backwards = repository(packages);
    assert_eq!(
        order(&forwards, &["testpkg1", "testpkg2"], false, false),
        order(&backwards, &["testpkg1", "testpkg2"], false, false)
    );
}

#[test]
fn dependents_are_joined_in_ascending_order() {
    let repos = repository(vec![
        package("root", &[], &[], &[], &[]),
        package("zeta", &["root"], &[], &[], &[]),
        package("alpha", &["root"], &[], &[], &[]),
        package("midway", &["root"], &[], &[], &[]),
    ]);
    let out = run(names(&["root"]), &repos, true, false, false).unwrap();
    assert_eq!(out.order, "root zeta midway alpha");
    assert_eq!(
        out.dotfile.unwrap(),
        "digraph {\n    0 [ label = \"root\" ]\n    1 [ label = \"alpha\" ]\n    2 [ label = \"midway\" ]\n    3 [ label = \"zeta\" ]\n    0 -> 1 [ ]\n    0 -> 2 [ ]\n    0 -> 3 [ ]\n}\n"
    );
}

#[test]
fn roots_only_keeps_every_root_once() {
    let repos = multiple_pkgnames();
    let res = order(&repos, &["testpkg2", "testpkg1", "testpkg4"], true, false);
    let mut shown: Vec<&str> = res.split(' ').collect();
    shown.sort();
    assert_eq!(shown, vec!["testpkg1", "testpkg2", "testpkg4"]);
}

#[test]
fn every_root_appears_once_unfiltered() {
    let repos = multiple_pkgnames();
    let res = order(&repos, &["testpkg2", "testpkg1"], false, false);
    let shown: Vec<&str> = res.split(' ').collect();
    for root in ["testpkg1", "testpkg2"] {
        assert_eq!(shown.iter().filter(|name| **name == root).count(), 1);
    }
    assert_eq!(shown, vec!["testpkg1", "testpkg3", "testpkg2", "testpkg4"]);
}

#[test]
fn dependents_of_dependents_are_joined_but_not_visited() {
    let repos = repository(vec![
        package("testpkg1", &[], &[], &[], &[]),
        package("testpkg2", &["testpkg1"], &[], &[], &[]),
        package("testpkg3", &["testpkg2"], &[], &[], &[]),
        package("testpkg4", &["testpkg3"], &[], &[], &[]),
    ]);
    assert_eq!(order(&repos, &["testpkg1"], false, false), "testpkg1 testpkg2 testpkg3");
    assert_eq!(
        order(&repos, &["testpkg1", "testpkg3"], false, false),
        "testpkg1 testpkg2 testpkg3 testpkg4"
    );
}

#[test]
fn later_root_wins_a_shared_virtual_name() {
    let repos = repository(vec![
        package("first", &[], &[], &["virt"], &[]),
        package("second", &[], &[], &["virt"], &[]),
        package("user", &["virt"], &[], &[], &[]),
    ]);
    let out = run(names(&["first", "second"]), &repos, true, false, false).unwrap();
    assert_eq!(out.order, "first second user");
    assert_eq!(
        out.dotfile.unwrap(),
        "digraph {\n    0 [ label = \"first\" ]\n    1 [ label = \"second\" ]\n    2 [ label = \"user\" ]\n    1 -> 2 [ ]\n}\n"
    );
}

#[test]
fn first_repository_wins_a_lookup() {
    let repos = vec![
        Repository {
            name: "core".to_string(),
            packages: vec![package("testpkg1", &[], &[], &["one"], &[])],
        },
        Repository {
            name: "extra".to_string(),
            packages: vec![
                package("testpkg1", &[], &[], &["two"], &[]),
                package("user-of-one", &["one"], &[], &[], &[]),
                package("user-of-two", &["two"], &[], &[], &[]),
            ],
        },
    ];
    assert_eq!(order(&repos, &["testpkg1"], false, false), "testpkg1 user-of-one");
}

#[test]
fn edges_between_unvisited_dependents_are_not_seen() {
    let repos = repository(vec![
        package("r", &[], &[], &[], &[]),
        package("a", &["r"], &[], &[], &[]),
        package("b", &["a"], &[], &[], &[]),
        package("c", &["a", "b"], &[], &[], &[]),
    ]);
    let out = run(names(&["r"]), &repos, true, false, false).unwrap();
    assert_eq!(out.order, "r a c b");
    assert_eq!(
        out.dotfile.unwrap(),
        "digraph {\n    0 [ label = \"r\" ]\n    1 [ label = \"a\" ]\n    2 [ label = \"b\" ]\n    3 [ label = \"c\" ]\n    0 -> 1 [ ]\n    1 -> 2 [ ]\n    1 -> 3 [ ]\n}\n"
    );
    assert_eq!(order(&repos, &["r", "b"], false, false), "r a b c");
}
