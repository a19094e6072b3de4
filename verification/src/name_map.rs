use crate::names::{
    ascending, lemma_insert_at_slot, lemma_slot_holds_name, lower_bound, name_lt, names_of,
};
use vstd::prelude::*;

verus! {

/// A map from package names to values, kept in ascending order of the names.
pub struct NameMap<V> {
    names: Vec<String>,
    values: Vec<V>,
}

impl<V> NameMap<V> {
    /// The names that have a value, in ascending order.
    pub closed spec fn keys(&self) -> Seq<Seq<char>> {
        names_of(self.names@)
    }

    /// The values, each at the position of its name in `keys`.
    pub closed spec fn vals(&self) -> Seq<V> {
        self.values@
    }

    /// The names stand in ascending order, each once, and each has a value.
    pub open spec fn wf(&self) -> bool {
        &&& ascending(self.keys())
        &&& self.keys().len() == self.vals().len()
    }

    /// Does `name` have a value?
    pub open spec fn has(&self, name: Seq<char>) -> bool {
        self.keys().contains(name)
    }

    /// The position of `name` among the keys.
    pub open spec fn position(&self, name: Seq<char>) -> int {
        self.keys().index_of(name)
    }

    /// The value of `name`.
    pub open spec fn value(&self, name: Seq<char>) -> V {
        self.vals()[self.position(name)]
    }

    /// The map from each name to its value.
    pub open spec fn view(&self) -> Map<Seq<char>, V> {
        Map::new(|name: Seq<char>| self.has(name), |name: Seq<char>| self.value(name))
    }

    /// In a well-formed map each key stands at its own position.
    pub proof fn lemma_position(&self, i: int)
        requires
            self.wf(),
            0 <= i < self.keys().len(),
        ensures
            self.has(self.keys()[i]),
            self.position(self.keys()[i]) == i,
            self.value(self.keys()[i]) == self.vals()[i],
    {
        let name = self.keys()[i];
        let p = self.position(name);
        assert(0 <= p < self.keys().len() && self.keys()[p] == name);
        if p < i {
            assert(name_lt(self.keys()[p], self.keys()[i]));
        } else if i < p {
            assert(name_lt(self.keys()[i], self.keys()[p]));
        }
    }

    /// The empty map.
    pub fn new() -> (map: NameMap<V>)
        ensures
            map.wf(),
            map.keys() == Seq::<Seq<char>>::empty(),
            map@ == Map::<Seq<char>, V>::empty(),
    {
        let map = NameMap { names: Vec::new(), values: Vec::new() };
        assert(map.keys() =~= Seq::<Seq<char>>::empty());
        assert(map@ =~= Map::<Seq<char>, V>::empty());
        map
    }

    /// The number of names.
    pub fn len(&self) -> (n: usize)
        requires
            self.wf(),
        ensures
            n == self.keys().len(),
    {
        self.names.len()
    }

    /// The position of `name` among the keys, if it has a value.
    pub fn find(&self, name: &String) -> (found: Option<usize>)
        requires
            self.wf(),
        ensures
            found is Some <==> self.has(name@),
            found is Some ==> found->0 == self.position(name@) && found->0 < self.keys().len(),
    {
        let pos = lower_bound(&self.names, name);
        proof {
            lemma_slot_holds_name(self.keys(), name@, pos as int);
        }
        if pos < self.names.len() && self.names[pos] == *name {
            proof {
                self.lemma_position(pos as int);
            }
            Some(pos)
        } else {
            None
        }
    }

    /// The name at position `pos`.
    pub fn key_at(&self, pos: usize) -> (name: &String)
        requires
            self.wf(),
            pos < self.keys().len(),
        ensures
            name@ == self.keys()[pos as int],
    {
        &self.names[pos]
    }

    /// The value at position `pos`.
    pub fn value_at(&self, pos: usize) -> (value: &V)
        requires
            self.wf(),
            pos < self.keys().len(),
        ensures
            *value == self.vals()[pos as int],
    {
        &self.values[pos]
    }

    /// The value at position `pos`, to be changed in place.
    pub fn value_at_mut(&mut self, pos: usize) -> (value: &mut V)
        requires
            old(self).wf(),
            pos < old(self).keys().len(),
        ensures
            *value == old(self).vals()[pos as int],
            final(self).keys() == old(self).keys(),
            final(self).vals() == old(self).vals().update(pos as int, *final(value)),
    {
        &mut self.values[pos]
    }

    /// The value of `name`, if it has one.
    pub fn get(&self, name: &String) -> (value: Option<&V>)
        requires
            self.wf(),
        ensures
            value is Some <==> self.has(name@),
            value is Some ==> *value->0 == self.value(name@),
    {
        match self.find(name) {
            Some(pos) => Some(&self.values[pos]),
            None => None,
        }
    }

    /// Gives `name` the value `value`, in place of the one it had, if any.
    pub fn insert(&mut self, name: String, value: V)
        requires
            old(self).wf(),
        ensures
            final(self).wf(),
            final(self)@ == old(self)@.insert(name@, value),
            final(self).keys().to_set() == old(self).keys().to_set().insert(name@),
    {
        let pos = lower_bound(&self.names, &name);
        let ghost before = *self;
        proof {
            lemma_slot_holds_name(self.keys(), name@, pos as int);
        }
        if pos < self.names.len() && self.names[pos] == name {
            self.values[pos] = value;
            proof {
                assert(self.keys() == before.keys());
                assert(self.keys().to_set() =~= before.keys().to_set().insert(name@));
                before.lemma_position(pos as int);
                assert forall|k: Seq<char>| self.has(k) implies #[trigger] self.value(k)
                    == before@.insert(name@, value)[k] by {
                    let i = self.position(k);
                    assert(0 <= i < self.keys().len() && self.keys()[i] == k);
                }
                assert(self@ =~= before@.insert(name@, value));
            }
        } else {
            proof {
                lemma_insert_at_slot(self.keys(), name@, pos as int);
            }
            self.names.insert(pos, name);
            self.values.insert(pos, value);
            proof {
                assert(self.keys() =~= before.keys().insert(pos as int, name@));
                assert forall|k: Seq<char>| self.has(k) implies #[trigger] self.value(k)
                    == before@.insert(name@, value)[k] by {
                    let i = self.position(k);
                    assert(0 <= i < self.keys().len() && self.keys()[i] == k);
                    self.lemma_position(i);
                    if i < pos {
                        before.lemma_position(i);
                    } else if i > pos {
                        before.lemma_position(i - 1);
                    }
                }
                assert forall|k: Seq<char>| self.has(k) <==> before@.insert(
                    name@,
                    value,
                ).dom().contains(k) by {
                    assert(self.keys().to_set().contains(k) <==> before.keys().to_set().insert(
                        name@,
                    ).contains(k));
                }
                assert(self@ =~= before@.insert(name@, value));
            }
        }
    }
}

} // verus!
