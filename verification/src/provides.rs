use crate::error::RebuildOrderError;
use crate::name_map::NameMap;
use crate::names::{lemma_take_next, names_of};
use crate::package::{Package, Repository};
use vstd::prelude::*;

verus! {

/// Package `p` of repository `r` is called `name`, and no package listed
/// before it is: not in an earlier repository, nor earlier in the same one.
pub open spec fn is_first_match(repos: Seq<Repository>, name: Seq<char>, r: int, p: int) -> bool {
    &&& 0 <= r < repos.len()
    &&& 0 <= p < repos[r].packages.len()
    &&& repos[r].packages[p].name@ == name
    &&& forall|i: int, j: int|
        0 <= i < repos.len() && 0 <= j < repos[i].packages.len() && (i < r || (i == r && j < p))
            ==> (#[trigger] repos[i].packages[j]).name@ != name
}

/// Some repository has a package called `name`.
pub open spec fn is_known(repos: Seq<Repository>, name: Seq<char>) -> bool {
    exists|r: int, p: int|
        0 <= r < repos.len() && 0 <= p < repos[r].packages.len() && (
        #[trigger] repos[r].packages[p]).name@ == name
}

/// Every one of the names is the name of a package of some repository.
pub open spec fn all_known(repos: Seq<Repository>, names: Seq<Seq<char>>) -> bool {
    forall|i: int| 0 <= i < names.len() ==> is_known(repos, #[trigger] names[i])
}

/// The package called `name` that is listed first.
pub open spec fn lookup(repos: Seq<Repository>, name: Seq<char>) -> Package {
    let (r, p) = choose|r: int, p: int| is_first_match(repos, name, r, p);
    repos[r].packages[p]
}

/// There is only one first match.
pub proof fn lemma_first_match_unique(repos: Seq<Repository>, name: Seq<char>, r: int, p: int)
    requires
        is_first_match(repos, name, r, p),
    ensures
        lookup(repos, name) == repos[r].packages[p],
        is_known(repos, name),
{
    let (r_other, p_other) = choose|r_other: int, p_other: int| is_first_match(repos, name, r_other, p_other);
    assert(is_first_match(repos, name, r_other, p_other));
    if r_other < r || (r_other == r && p_other < p) {
        assert(repos[r_other].packages[p_other].name@ != name);
    }
    if r < r_other || (r == r_other && p < p_other) {
        assert(repos[r].packages[p].name@ != name);
    }
}

/// Attempt to find any match of a package in the repositories: the first
/// one in the order of the repositories, and within a repository in the
/// order of its packages. Where no package has that name, the package is
/// reported as not found.
pub fn find_package_anywhere<'a>(pkgname: &String, repos: &'a Vec<Repository>) -> (found: Result<
    &'a Package,
    RebuildOrderError,
>)
    ensures
        found is Ok <==> is_known(repos@, pkgname@),
        found is Ok ==> *found->Ok_0 == lookup(repos@, pkgname@) && found->Ok_0.name@
            == pkgname@,
        found is Err ==> found->Err_0 is PackageNotFound,
{
    let mut r: usize = 0;
    while r < repos.len()
        invariant
            r <= repos.len(),
            forall|i: int, j: int|
                0 <= i < r && 0 <= j < repos[i].packages.len() ==> (
                #[trigger] repos[i].packages[j]).name@ != pkgname@,
        decreases repos.len() - r,
    {
        let packages = &repos[r].packages;
        let mut p: usize = 0;
        while p < packages.len()
            invariant
                r < repos.len(),
                packages == &repos[r as int].packages,
                p <= packages.len(),
                forall|i: int, j: int|
                    0 <= i < r && 0 <= j < repos[i].packages.len() ==> (
                    #[trigger] repos[i].packages[j]).name@ != pkgname@,
                forall|j: int| 0 <= j < p ==> (#[trigger] packages[j]).name@ != pkgname@,
            decreases packages.len() - p,
        {
            if packages[p].name == *pkgname {
                proof {
                    assert(is_first_match(repos@, pkgname@, r as int, p as int));
                    lemma_first_match_unique(repos@, pkgname@, r as int, p as int);
                }
                return Ok(&packages[p]);
            }
            p += 1;
        }
        r += 1;
    }
    Err(RebuildOrderError::PackageNotFound)
}

/// The packages behind a vector of references.
pub open spec fn packages_of(v: Seq<&Package>) -> Seq<Package> {
    Seq::new(v.len(), |i: int| *v[i])
}

/// The packages that the names stand for: for each name the package of
/// that name that is listed first.
pub open spec fn lookup_all(repos: Seq<Repository>, names: Seq<Seq<char>>) -> Seq<Package> {
    Seq::new(names.len(), |i: int| lookup(repos, names[i]))
}

/// Finds the package of each root name, or reports the first name that no
/// repository knows as not found.
pub fn find_roots<'a>(pkgnames: &Vec<String>, repos: &'a Vec<Repository>) -> (found: Result<
    Vec<&'a Package>,
    RebuildOrderError,
>)
    ensures
        found is Ok <==> all_known(repos@, names_of(pkgnames@)),
        found is Ok ==> packages_of(found->Ok_0@) == lookup_all(repos@, names_of(pkgnames@)),
        found is Err ==> found->Err_0 is PackageNotFound,
{
    let mut roots: Vec<&'a Package> = Vec::new();
    let mut i: usize = 0;
    while i < pkgnames.len()
        invariant
            i <= pkgnames.len(),
            roots.len() == i,
            forall|k: int| 0 <= k < i ==> is_known(repos@, #[trigger] names_of(pkgnames@)[k]),
            forall|k: int| 0 <= k < i ==> *roots[k] == lookup(repos@, pkgnames[k]@),
        decreases pkgnames.len() - i,
    {
        match find_package_anywhere(&pkgnames[i], repos) {
            Ok(package) => {
                roots.push(package);
            },
            Err(e) => {
                assert(!is_known(repos@, names_of(pkgnames@)[i as int]));
                return Err(e);
            },
        }
        assert(is_known(repos@, names_of(pkgnames@)[i as int]));
        i += 1;
    }
    assert(packages_of(roots@) =~= lookup_all(repos@, names_of(pkgnames@)));
    Ok(roots)
}

/// The virtual names that the packages provide, in the order of the
/// packages and, for each, in the order in which it lists them.
pub open spec fn virtual_names(packages: Seq<Package>) -> Seq<Seq<char>>
    decreases packages.len(),
{
    if packages.len() == 0 {
        Seq::empty()
    } else {
        virtual_names(packages.drop_last()) + names_of(packages.last().provides@)
    }
}

/// `owners`, changed so that each of `names` belongs to `owner`.
pub open spec fn with_owner(
    owners: Map<Seq<char>, Seq<char>>,
    names: Seq<Seq<char>>,
    owner: Seq<char>,
) -> Map<Seq<char>, Seq<char>> {
    Map::new(
        |name: Seq<char>| owners.contains_key(name) || names.contains(name),
        |name: Seq<char>|
            if names.contains(name) {
                owner
            } else {
                owners[name]
            },
    )
}

/// For each virtual name the package that provides it; where several of
/// the packages provide it, the last of them.
pub open spec fn owners_of(packages: Seq<Package>) -> Map<Seq<char>, Seq<char>>
    decreases packages.len(),
{
    if packages.len() == 0 {
        Map::empty()
    } else {
        with_owner(
            owners_of(packages.drop_last()),
            names_of(packages.last().provides@),
            packages.last().name@,
        )
    }
}

/// For each virtual name the package that stands for it.
pub type OwnerModel = Map<Seq<char>, Seq<char>>;

/// The real package behind `name`: its owner where it is a virtual name,
/// else `name` itself.
pub open spec fn resolve_in(owners: OwnerModel, name: Seq<char>) -> Seq<char> {
    if owners.contains_key(name) {
        owners[name]
    } else {
        name
    }
}

/// The virtual names that the root packages provide, and for each the root
/// package that stands for it.
pub struct Provides {
    names: Vec<String>,
    owners: NameMap<String>,
}

impl Provides {
    /// The virtual names, in the order in which they were collected.
    pub closed spec fn names(&self) -> Seq<Seq<char>> {
        names_of(self.names@)
    }

    /// The map from each virtual name to the package that stands for it.
    pub closed spec fn owners(&self) -> Map<Seq<char>, Seq<char>> {
        Map::new(
            |name: Seq<char>| self.owners.has(name),
            |name: Seq<char>| self.owners.value(name)@,
        )
    }

    /// The real package behind `name`: its owner where it is a virtual
    /// name, else `name` itself.
    pub open spec fn resolve(&self, name: Seq<char>) -> Seq<char> {
        resolve_in(self.owners(), name)
    }

    /// The names of the map are kept in ascending order.
    pub closed spec fn wf(&self) -> bool {
        self.owners.wf()
    }

    /// Collects what the packages provide.
    pub fn of(packages: &Vec<&Package>) -> (provides: Provides)
        ensures
            provides.wf(),
            provides.names() == virtual_names(packages_of(packages@)),
            provides.owners() == owners_of(packages_of(packages@)),
    {
        let mut provides = Provides { names: Vec::new(), owners: NameMap::new() };
        let ghost all = packages_of(packages@);
        let mut i: usize = 0;
        assert(all.take(0) =~= Seq::<Package>::empty());
        assert(provides.names() =~= virtual_names(all.take(0)));
        assert(provides.owners() =~= owners_of(all.take(0)));
        while i < packages.len()
            invariant
                i <= packages.len(),
                all == packages_of(packages@),
                provides.wf(),
                provides.names() == virtual_names(all.take(i as int)),
                provides.owners() == owners_of(all.take(i as int)),
            decreases packages.len() - i,
        {
            let package = packages[i];
            let ghost names_before = provides.names();
            let ghost owners_before = provides.owners();
            let mut k: usize = 0;
            assert(names_of(package.provides@).take(0) =~= Seq::<Seq<char>>::empty());
            assert(provides.owners() =~= with_owner(
                owners_before,
                names_of(package.provides@).take(0),
                package.name@,
            ));
            while k < package.provides.len()
                invariant
                    k <= package.provides.len(),
                    provides.wf(),
                    provides.names() == names_before + names_of(package.provides@).take(k as int),
                    provides.owners() == with_owner(
                        owners_before,
                        names_of(package.provides@).take(k as int),
                        package.name@,
                    ),
                decreases package.provides.len() - k,
            {
                let ghost before = provides;
                provides.names.push(package.provides[k].clone());
                provides.owners.insert(package.provides[k].clone(), package.name.clone());
                proof {
                    let done = names_of(package.provides@).take(k as int);
                    let next = names_of(package.provides@).take(k + 1);
                    let name = package.provides[k as int]@;
                    lemma_take_next(names_of(package.provides@), k as int);
                    assert(names_of(package.provides@)[k as int] == name);
                    assert(provides.names@ =~= before.names@.push(provides.names@.last()));
                    assert(provides.names() =~= before.names().push(name));
                    assert(provides.names() =~= names_before + next);
                    let goal = with_owner(owners_before, next, package.name@);
                    assert forall|t: Seq<char>| #[trigger]
                        provides.owners().contains_key(t) == goal.contains_key(t) by {
                        assert(provides.owners@.contains_key(t) == provides.owners.has(t));
                        assert(before.owners@.contains_key(t) == before.owners.has(t));
                        assert(before.owners().contains_key(t) == before.owners.has(t));
                    }
                    assert forall|t: Seq<char>| provides.owners().contains_key(t) implies #[trigger]
                        provides.owners()[t] == goal[t] by {
                        assert(provides.owners@.contains_key(t) == provides.owners.has(t));
                        assert(provides.owners@[t] == provides.owners.value(t));
                        if t != name {
                            assert(before.owners@.contains_key(t) == before.owners.has(t));
                            assert(before.owners@[t] == before.owners.value(t));
                            assert(before.owners()[t] == before.owners.value(t)@);
                        }
                    }
                    assert(provides.owners() =~= with_owner(owners_before, next, package.name@));
                }
                k += 1;
            }
            proof {
                assert(names_of(package.provides@).take(package.provides.len() as int)
                    =~= names_of(package.provides@));
                assert(all.take(i + 1).drop_last() =~= all.take(i as int));
                assert(all.take(i + 1).last() == *package);
            }
            i += 1;
        }
        assert(all.take(packages.len() as int) =~= all);
        provides
    }

    /// The virtual names, in the order in which they were collected.
    pub fn names_in_order(&self) -> (names: &Vec<String>)
        ensures
            names_of(names@) == self.names(),
    {
        &self.names
    }

    /// Resolve the provided package to the real package: virtual names have
    /// no package of their own.
    pub fn real_name<'a>(&'a self, name: &'a String) -> (actual: &'a String)
        requires
            self.wf(),
        ensures
            actual@ == self.resolve(name@),
    {
        match self.owners.get(name) {
            Some(owner) => owner,
            None => name,
        }
    }
}

} // verus!
