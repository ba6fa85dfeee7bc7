//! The named communities of the dataset.

use std::collections::HashSet;
use vstd::prelude::*;

verus! {

/// The names of `entries`, in order.
spec fn names_of(entries: Seq<(String, HashSet<usize>)>) -> Seq<Seq<char>> {
    Seq::new(entries.len(), |i: int| entries[i].0@)
}

/// A map from the name of a community to the set of its members.
///
/// A name occurs once: inserting under a name that is there replaces the
/// members recorded for it.
#[derive(Debug)]
pub struct Circles {
    entries: Vec<(String, HashSet<usize>)>,
}

impl View for Circles {
    type V = Map<Seq<char>, Set<usize>>;

    closed spec fn view(&self) -> Map<Seq<char>, Set<usize>> {
        let names = names_of(self.entries@);
        Map::new(
            |name: Seq<char>| names.contains(name),
            |name: Seq<char>| self.entries@[names.index_of(name)].1@,
        )
    }
}

impl Circles {
    #[verifier::type_invariant]
    spec fn names_distinct(self) -> bool {
        names_of(self.entries@).no_duplicates()
    }

    /// No community at all.
    pub fn new() -> (circles: Circles)
        ensures
            circles@ == Map::<Seq<char>, Set<usize>>::empty(),
    {
        let circles = Circles { entries: Vec::new() };
        assert(circles@ =~= Map::<Seq<char>, Set<usize>>::empty());
        circles
    }

    /// The number of communities.
    pub fn len(&self) -> (n: usize)
        ensures
            n == self@.dom().len(),
            self@.dom().finite(),
    {
        proof {
            use_type_invariant(self);
            let names = names_of(self.entries@);
            names.unique_seq_to_set();
            assert(self@.dom() =~= names.to_set());
        }
        self.entries.len()
    }

    /// The position of `name` among the entries, if it is there.
    fn position(entries: &Vec<(String, HashSet<usize>)>, name: &String) -> (r: Option<usize>)
        ensures
            r is None ==> !names_of(entries@).contains(name@),
            r matches Some(i) ==> i < entries@.len() && names_of(entries@)[i as int] == name@,
    {
        let mut i: usize = 0;
        while i < entries.len()
            invariant
                i <= entries@.len(),
                forall|j: int| 0 <= j < i ==> names_of(entries@)[j] != name@,
            decreases entries@.len() - i,
        {
            if entries[i].0 == *name {
                return Some(i);
            }
            i += 1;
        }
        None
    }

    /// Records `members` under `name`, in place of what was recorded under
    /// that name before.
    pub fn insert(&mut self, name: String, members: HashSet<usize>)
        ensures
            final(self)@ == old(self)@.insert(name@, members@),
    {
        proof {
            use_type_invariant(&*self);
        }
        let mut entries: Vec<(String, HashSet<usize>)> = Vec::new();
        std::mem::swap(&mut entries, &mut self.entries);
        let ghost before = entries@;
        let ghost names = names_of(before);
        let found = Circles::position(&entries, &name);
        match found {
            Some(i) => {
                entries[i] = (name, members);
                assert(names_of(entries@) =~= names);
            },
            None => {
                entries.push((name, members));
                assert(names_of(entries@) =~= names.push(name@));
            },
        }
        proof {
            let after = names_of(entries@);
            assert forall|n: Seq<char>|
                names.contains(n) && n != name@ implies entries@[after.index_of(n)]
                == before[names.index_of(n)] by {
                let j = names.index_of(n);
                assert(after[j] == n);
                assert(after[after.index_of(n)] == n);
            }
            assert(after.contains(name@)) by {
                match found {
                    Some(i) => {
                        assert(after[i as int] == name@);
                    },
                    None => {
                        assert(after[names.len() as int] == name@);
                    },
                }
            }
            assert(entries@[after.index_of(name@)].1@ == members@) by {
                let j = after.index_of(name@);
                assert(after[j] == name@);
                match found {
                    Some(i) => {
                        assert(after[i as int] == name@);
                    },
                    None => {
                        assert(after[names.len() as int] == name@);
                    },
                }
            }
            assert forall|n: Seq<char>| after.contains(n) implies n == name@ || names.contains(
                n,
            ) by {
                let j = after.index_of(n);
                assert(after[j] == n);
                if j < names.len() {
                    assert(names[j] == n || n == name@);
                }
            }
            assert forall|n: Seq<char>| names.contains(n) implies after.contains(n) by {
                let j = names.index_of(n);
                assert(after[j] == n);
            }
        }
        self.entries = entries;
        assert(self@ =~= old(self)@.insert(name@, members@));
    }

    /// The members recorded under `name`, if any are.
    pub fn get(&self, name: &String) -> (r: Option<&HashSet<usize>>)
        ensures
            r is Some <==> self@.dom().contains(name@),
            r matches Some(members) ==> members@ == self@[name@],
    {
        proof {
            use_type_invariant(self);
        }
        match Circles::position(&self.entries, name) {
            Some(i) => {
                proof {
                    let names = names_of(self.entries@);
                    assert(names[i as int] == name@);
                    assert(names[names.index_of(name@)] == name@);
                }
                Some(&self.entries[i].1)
            },
            None => None,
        }
    }
}

} // verus!
