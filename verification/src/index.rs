use crate::name_map::NameMap;
use crate::name_set::NameSet;
use crate::names::{ascending, in_order, lemma_in_order, lemma_take_next, names_of};
use crate::package::{depends_on, Package, Repository};
use vstd::prelude::*;

verus! {

/// For each name that some package depends on, the packages that depend on
/// it: its dependents.
pub struct ReverseDeps {
    map: NameMap<NameSet>,
}

/// What an index holds: for each target its dependents, in ascending
/// order.
pub type IndexModel = Map<Seq<char>, Seq<Seq<char>>>;

/// The dependents of `name`; none where nothing depends on it.
pub open spec fn dependents_in(index: IndexModel, name: Seq<char>) -> Seq<Seq<char>> {
    if index.contains_key(name) {
        index[name]
    } else {
        Seq::empty()
    }
}

/// The index that holds the pairs: a target is each name that stands
/// first in a pair, its dependents are the names that stand with it.
pub open spec fn model_of(pairs: Set<Pair>) -> IndexModel {
    Map::new(
        |target: Seq<char>| exists|dependent: Seq<char>| pairs.contains((target, dependent)),
        |target: Seq<char>| in_order(Set::new(|dependent: Seq<char>| pairs.contains((target, dependent)))),
    )
}

/// The index of what the repositories record.
pub open spec fn index_of(repos: Seq<Repository>, with_check_depends: bool) -> IndexModel {
    model_of(recorded_pairs(repos, with_check_depends))
}

/// A target and one of its dependents.
pub type Pair = (Seq<char>, Seq<char>);

/// The pairs that hold `dependent` with each of `targets`.
pub open spec fn pairs_with(targets: Seq<Seq<char>>, dependent: Seq<char>) -> Set<Pair> {
    Set::new(|pair: Pair| pair.1 == dependent && targets.contains(pair.0))
}

/// The pairs of a target and a dependent that the repositories record.
pub open spec fn recorded_pairs(repos: Seq<Repository>, with_check_depends: bool) -> Set<Pair> {
    Set::new(|pair: Pair| depends_on(repos, with_check_depends, pair.1, pair.0))
}

/// The pairs recorded by the repositories before `r`, and by the packages
/// before `p` of repository `r`.
pub open spec fn recorded_before(
    repos: Seq<Repository>,
    with_check_depends: bool,
    r: int,
    p: int,
) -> Set<Pair> {
    Set::new(
        |pair: Pair|
            exists|i: int, j: int|
                0 <= i < repos.len() && 0 <= j < repos[i].packages.len() && (i < r || (i == r && j
                    < p)) && (#[trigger] repos[i].packages[j]).name@ == pair.1
                    && repos[i].packages[j].targets(with_check_depends).contains(pair.0),
    )
}

impl ReverseDeps {
    /// Does some package depend on `target`?
    pub closed spec fn has(&self, target: Seq<char>) -> bool {
        self.map.has(target)
    }

    /// The dependents of `target` in ascending order; none where nothing
    /// depends on it.
    pub closed spec fn dependents(&self, target: Seq<char>) -> Seq<Seq<char>> {
        if self.map.has(target) {
            self.map.value(target).seq()
        } else {
            Seq::empty()
        }
    }

    /// Each target with its dependents, in ascending order.
    pub open spec fn model(&self) -> IndexModel {
        Map::new(|target: Seq<char>| self.has(target), |target: Seq<char>| self.dependents(target))
    }

    /// Every target with each of its dependents.
    pub open spec fn pairs(&self) -> Set<Pair> {
        Set::new(|pair: Pair| self.dependents(pair.0).contains(pair.1))
    }

    /// The map from each target to the set of its dependents.
    pub open spec fn view(&self) -> Map<Seq<char>, Set<Seq<char>>> {
        Map::new(|target: Seq<char>| self.has(target), |target: Seq<char>| self.dependents(target).to_set())
    }

    /// Targets and dependents are kept in ascending order, and every target
    /// has a dependent.
    pub closed spec fn wf(&self) -> bool {
        &&& self.map.wf()
        &&& forall|i: int|
            0 <= i < self.map.vals().len() ==> (#[trigger] self.map.vals()[i]).wf()
                && self.map.vals()[i].seq().len() > 0
    }

    /// What well-formedness means for the dependents of one name.
    pub proof fn lemma_dependents(&self, target: Seq<char>)
        requires
            self.wf(),
        ensures
            ascending(self.dependents(target)),
            self.has(target) <==> self.dependents(target).len() > 0,
            dependents_in(self.model(), target) == self.dependents(target),
    {
        if self.map.has(target) {
            let i = self.map.position(target);
            assert(0 <= i < self.map.keys().len() && self.map.keys()[i] == target);
            assert(self.map.vals()[i].wf());
        }
    }

    /// A well-formed index is given by its pairs.
    pub proof fn lemma_model(&self)
        requires
            self.wf(),
        ensures
            self.model() == model_of(self.pairs()),
    {
        let m = model_of(self.pairs());
        assert forall|t: Seq<char>| self.model().contains_key(t) <==> m.contains_key(t) by {
            self.lemma_dependents(t);
            if self.has(t) {
                assert(self.pairs().contains((t, self.dependents(t)[0])));
            }
        }
        assert forall|t: Seq<char>| self.model().contains_key(t) implies self.model()[t]
            == m[t] by {
            self.lemma_dependents(t);
            let set = Set::new(|d: Seq<char>| self.pairs().contains((t, d)));
            assert(set =~= self.dependents(t).to_set());
            lemma_in_order(self.dependents(t));
            assert(m.contains_key(t));
            assert(m[t] == in_order(set));
            assert(self.model()[t] == self.dependents(t));
        }
        assert(self.model() =~= m);
    }

    /// The index of no package at all.
    pub fn new() -> (index: ReverseDeps)
        ensures
            index.wf(),
            index.pairs() == Set::<Pair>::empty(),
    {
        let index = ReverseDeps { map: NameMap::new() };
        assert(index.pairs() =~= Set::<Pair>::empty());
        index
    }

    /// The dependents of `target`, if it has any.
    pub fn get(&self, target: &String) -> (found: Option<&NameSet>)
        requires
            self.wf(),
        ensures
            found is Some <==> self.has(target@),
            found is Some ==> found->0.wf() && found->0.seq() == self.dependents(target@),
    {
        let found = self.map.get(target);
        proof {
            self.lemma_dependents(target@);
            if self.map.has(target@) {
                let i = self.map.position(target@);
                assert(0 <= i < self.map.keys().len() && self.map.keys()[i] == target@);
                assert(self.map.vals()[i].wf());
            }
        }
        found
    }

    /// Records that `dependent` depends on `target`.
    pub fn record(&mut self, target: &String, dependent: &String)
        requires
            old(self).wf(),
        ensures
            final(self).wf(),
            final(self).pairs() == old(self).pairs().insert((target@, dependent@)),
    {
        let ghost before = *self;
        match self.map.find(target) {
            Some(pos) => {
                let set = self.map.value_at_mut(pos);
                set.insert(dependent.clone());
                proof {
                    assert forall|t: Seq<char>| #[trigger] self.dependents(t).to_set() == (if t
                        == target@ {
                        before.dependents(t).to_set().insert(dependent@)
                    } else {
                        before.dependents(t).to_set()
                    }) by {
                        if self.map.has(t) {
                            let i = self.map.position(t);
                            assert(0 <= i < self.map.keys().len() && self.map.keys()[i] == t);
                            before.map.lemma_position(i);
                            self.map.lemma_position(i);
                            before.map.lemma_position(pos as int);
                        }
                    }
                }
            },
            None => {
                let mut set = NameSet::new();
                set.insert(dependent.clone());
                self.map.insert(target.clone(), set);
                proof {
                    assert(set.seq().to_set() =~= set![dependent@]);
                    assert forall|i: int| 0 <= i < self.map.vals().len() implies (
                    #[trigger] self.map.vals()[i]).wf() && self.map.vals()[i].seq().len() > 0 by {
                        self.map.lemma_position(i);
                        let k = self.map.keys()[i];
                        assert(self.map@.contains_key(k));
                        assert(self.map@[k] == self.map.vals()[i]);
                        if k != target@ {
                            assert(before.map@.contains_key(k));
                            let j = before.map.position(k);
                            assert(0 <= j < before.map.keys().len() && before.map.keys()[j] == k);
                        }
                    }
                    assert forall|t: Seq<char>| #[trigger] self.dependents(t).to_set() == (if t
                        == target@ {
                        before.dependents(t).to_set().insert(dependent@)
                    } else {
                        before.dependents(t).to_set()
                    }) by {
                        assert(self.map@.contains_key(t) <==> self.map.has(t));
                        assert(before.map@.contains_key(t) <==> before.map.has(t));
                        if self.map.has(t) {
                            assert(self.map@[t] == self.map.value(t));
                            if t != target@ {
                                assert(before.map@[t] == before.map.value(t));
                            } else {
                                assert(before.dependents(t).to_set() =~= Set::<Seq<char>>::empty());
                            }
                        }
                    }
                }
            },
        }
        proof {
            assert forall|pair: Pair| self.pairs().contains(pair) <==> before.pairs().insert(
                (target@, dependent@),
            ).contains(pair) by {
                assert(self.dependents(pair.0).to_set().contains(pair.1) <==> self.dependents(
                    pair.0,
                ).contains(pair.1));
                assert(before.dependents(pair.0).to_set().contains(pair.1) <==> before.dependents(
                    pair.0,
                ).contains(pair.1));
            }
            assert(self.pairs() =~= before.pairs().insert((target@, dependent@)));
        }
    }
}

/// Records that `dependent` depends on each of `targets`.
fn record_names(index: &mut ReverseDeps, targets: &Vec<String>, dependent: &String)
    requires
        old(index).wf(),
    ensures
        final(index).wf(),
        final(index).pairs() == old(index).pairs().union(
            pairs_with(names_of(targets@), dependent@),
        ),
{
    let ghost before = index.pairs();
    let mut k: usize = 0;
    assert(index.pairs() =~= before.union(
        pairs_with(names_of(targets@).take(0), dependent@),
    ));
    while k < targets.len()
        invariant
            k <= targets.len(),
            index.wf(),
            index.pairs() == before.union(
                pairs_with(names_of(targets@).take(k as int), dependent@),
            ),
        decreases targets.len() - k,
    {
        index.record(&targets[k], dependent);
        proof {
            let next = names_of(targets@).take(k + 1);
            lemma_take_next(names_of(targets@), k as int);
            assert(names_of(targets@)[k as int] == targets[k as int]@);
            assert(index.pairs() =~= before.union(pairs_with(next, dependent@)));
        }
        k += 1;
    }
    assert(names_of(targets@).take(targets.len() as int) =~= names_of(targets@));
}

/// Records what `package` depends on.
fn record_package(index: &mut ReverseDeps, package: &Package, with_check_depends: bool)
    requires
        old(index).wf(),
    ensures
        final(index).wf(),
        final(index).pairs() == old(index).pairs().union(
            pairs_with(package.targets(with_check_depends), package.name@),
        ),
{
    let ghost before = index.pairs();
    record_names(index, &package.depends, &package.name);
    record_names(index, &package.makedepends, &package.name);
    if with_check_depends {
        record_names(index, &package.checkdepends, &package.name);
    }
    proof {
        let a = names_of(package.depends@);
        let b = names_of(package.makedepends@);
        let c = names_of(package.checkdepends@);
        let all = package.targets(with_check_depends);
        assert forall|t: Seq<char>| all.contains(t) <==> (a.contains(t) || b.contains(t) || (
        with_check_depends && c.contains(t))) by {
            if a.contains(t) {
                let i = choose|i: int| 0 <= i < a.len() && a[i] == t;
                assert(all[i] == t);
            }
            if b.contains(t) {
                let i = choose|i: int| 0 <= i < b.len() && b[i] == t;
                assert(all[a.len() + i] == t);
            }
            if with_check_depends && c.contains(t) {
                let i = choose|i: int| 0 <= i < c.len() && c[i] == t;
                assert(all[a.len() + b.len() + i] == t);
            }
            if all.contains(t) {
                let i = choose|i: int| 0 <= i < all.len() && all[i] == t;
                if i < a.len() {
                    assert(a[i] == t);
                } else if i < a.len() + b.len() {
                    assert(b[i - a.len()] == t);
                } else {
                    assert(c[i - a.len() - b.len()] == t);
                }
            }
        }
        assert(index.pairs() =~= before.union(pairs_with(all, package.name@)));
    }
}

/// Retrieve the index of all reverse dependencies: it holds a target with
/// a dependent exactly where some package of that name, in one of the
/// repositories, depends on the target. Check dependencies count only
/// where `with_check_depends` is set.
pub fn get_reverse_deps_map(repos: &Vec<Repository>, with_check_depends: bool) -> (index:
    ReverseDeps)
    ensures
        index.wf(),
        index.pairs() == recorded_pairs(repos@, with_check_depends),
        index.model() == index_of(repos@, with_check_depends),
{
    let mut index = ReverseDeps::new();
    let mut r: usize = 0;
    assert(index.pairs() =~= recorded_before(repos@, with_check_depends, 0, 0));
    while r < repos.len()
        invariant
            r <= repos.len(),
            index.wf(),
            index.pairs() == recorded_before(repos@, with_check_depends, r as int, 0),
        decreases repos.len() - r,
    {
        let packages = &repos[r].packages;
        let mut p: usize = 0;
        while p < packages.len()
            invariant
                r < repos.len(),
                packages == &repos[r as int].packages,
                p <= packages.len(),
                index.wf(),
                index.pairs() == recorded_before(repos@, with_check_depends, r as int, p as int),
            decreases packages.len() - p,
        {
            record_package(&mut index, &packages[p], with_check_depends);
            proof {
                let before = recorded_before(repos@, with_check_depends, r as int, p as int);
                let after = recorded_before(repos@, with_check_depends, r as int, p + 1);
                let added = pairs_with(
                    packages[p as int].targets(with_check_depends),
                    packages[p as int].name@,
                );
                assert forall|pair: Pair| after.contains(pair) <==> (before.contains(pair)
                    || added.contains(pair)) by {
                    if added.contains(pair) {
                        assert(repos[r as int].packages[p as int].name@ == pair.1);
                    }
                }
                assert(index.pairs() =~= after);
            }
            p += 1;
        }
        assert(recorded_before(repos@, with_check_depends, r as int, p as int)
            =~= recorded_before(repos@, with_check_depends, r + 1, 0));
        r += 1;
    }
    assert(recorded_before(repos@, with_check_depends, r as int, 0) =~= recorded_pairs(
        repos@,
        with_check_depends,
    ));
    proof {
        index.lemma_model();
    }
    index
}

} // verus!
