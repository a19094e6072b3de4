use crate::names::{
    ascending, lemma_insert_at_slot, lemma_slot_holds_name, lower_bound, names_of,
};
use vstd::prelude::*;

verus! {

/// A set of package names, kept in ascending order.
pub struct NameSet {
    names: Vec<String>,
}

impl NameSet {
    /// The names in ascending order.
    pub closed spec fn seq(&self) -> Seq<Seq<char>> {
        names_of(self.names@)
    }

    /// The names as a set.
    pub open spec fn view(&self) -> Set<Seq<char>> {
        self.seq().to_set()
    }

    /// The names stand in ascending order, each once.
    pub open spec fn wf(&self) -> bool {
        ascending(self.seq())
    }

    /// The empty set.
    pub fn new() -> (set: NameSet)
        ensures
            set.wf(),
            set.seq() == Seq::<Seq<char>>::empty(),
    {
        let set = NameSet { names: Vec::new() };
        assert(set.seq() =~= Seq::<Seq<char>>::empty());
        set
    }

    /// The number of names.
    pub fn len(&self) -> (n: usize)
        ensures
            n == self.seq().len(),
    {
        self.names.len()
    }

    /// The name at position `i` of the ascending order.
    pub fn name(&self, i: usize) -> (name: &String)
        requires
            i < self.seq().len(),
        ensures
            name@ == self.seq()[i as int],
    {
        &self.names[i]
    }

    /// Is `name` in the set?
    pub fn contains(&self, name: &String) -> (found: bool)
        requires
            self.wf(),
        ensures
            found == self@.contains(name@),
    {
        let pos = lower_bound(&self.names, name);
        proof {
            lemma_slot_holds_name(self.seq(), name@, pos as int);
        }
        pos < self.names.len() && self.names[pos] == *name
    }

    /// Puts `name` into the set; says whether it was new.
    pub fn insert(&mut self, name: String) -> (added: bool)
        requires
            old(self).wf(),
        ensures
            final(self).wf(),
            final(self)@ == old(self)@.insert(name@),
            added == !old(self)@.contains(name@),
            !added ==> final(self).seq() == old(self).seq(),
            added ==> final(self).seq().len() == old(self).seq().len() + 1,
    {
        let pos = lower_bound(&self.names, &name);
        proof {
            lemma_slot_holds_name(self.seq(), name@, pos as int);
        }
        if pos < self.names.len() && self.names[pos] == name {
            assert(self@.insert(name@) =~= self@);
            false
        } else {
            proof {
                lemma_insert_at_slot(self.seq(), name@, pos as int);
            }
            let ghost before = self.seq();
            self.names.insert(pos, name);
            assert(self.seq() =~= before.insert(pos as int, name@));
            true
        }
    }
}

} // verus!
