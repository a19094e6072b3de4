use crate::names::names_of;
use vstd::prelude::*;

verus! {

/// What a repository records of one package, as far as the rebuild order
/// depends on it. Every name is bare: no version constraint is attached.
#[derive(Debug)]
pub struct Package {
    /// The package's own name
    pub name: String,
    /// Names it needs at run time
    pub depends: Vec<String>,
    /// Names it needs to be built
    pub makedepends: Vec<String>,
    /// Names it needs for its test suite
    pub checkdepends: Vec<String>,
    /// Virtual names under which others may depend on it
    pub provides: Vec<String>,
}

/// The packages of one repository, in the order in which it lists them.
#[derive(Debug)]
pub struct Repository {
    /// The repository's name
    pub name: String,
    /// Its packages
    pub packages: Vec<Package>,
}

impl Package {
    /// The names this package depends on: at run time, to be built and,
    /// where check dependencies count, for its test suite.
    pub open spec fn targets(self, with_check_depends: bool) -> Seq<Seq<char>> {
        names_of(self.depends@) + names_of(self.makedepends@) + if with_check_depends {
            names_of(self.checkdepends@)
        } else {
            Seq::empty()
        }
    }
}

/// Some package called `dependent`, in one of the repositories, depends on
/// the name `target`.
pub open spec fn depends_on(
    repos: Seq<Repository>,
    with_check_depends: bool,
    dependent: Seq<char>,
    target: Seq<char>,
) -> bool {
    exists|r: int, p: int|
        0 <= r < repos.len() && 0 <= p < repos[r].packages.len()
            && (#[trigger] repos[r].packages[p]).name@ == dependent
            && repos[r].packages[p].targets(with_check_depends).contains(target)
}

} // verus!
