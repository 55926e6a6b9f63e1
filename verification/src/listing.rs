//! A short list of named values.

use crate::text::same_text;
use vstd::prelude::*;

verus! {

/// A few named values, each name once, in the order in which the names came in.
#[derive(Debug, Clone)]
pub struct Listing<V> {
    entries: Vec<(String, V)>,
}

impl<V> View for Listing<V> {
    type V = Map<Seq<char>, V>;

    closed spec fn view(&self) -> Map<Seq<char>, V> {
        Map::new(
            |name: Seq<char>| exists|i: int| entry_at(self.entries@, name, i),
            |name: Seq<char>|
                self.entries@[choose|i: int| entry_at(self.entries@, name, i)].1,
        )
    }
}

/// Whether entry `i` has the given name.
spec fn entry_at<V>(entries: Seq<(String, V)>, name: Seq<char>, i: int) -> bool {
    0 <= i < entries.len() && entries[i].0@ == name
}

impl<V> Listing<V> {
    pub closed spec fn wf(&self) -> bool {
        forall|i: int, j: int|
            0 <= i < j < self.entries@.len() ==> (#[trigger] self.entries@[i]).0@ != (
            #[trigger] self.entries@[j]).0@
    }

    /// The names in the order in which they came in.
    pub closed spec fn order(&self) -> Seq<Seq<char>> {
        self.entries@.map_values(|entry: (String, V)| entry.0@)
    }

    /// The names of a listing are in its order, each once.
    pub proof fn lemma_order(&self)
        requires
            self.wf(),
        ensures
            self.order().no_duplicates(),
            forall|name: Seq<char>| self.order().contains(name) <==> self@.contains_key(name),
    {
        assert forall|name: Seq<char>|
            self.order().contains(name) <==> self@.contains_key(name) by {
            if self.order().contains(name) {
                let i = choose|i: int| 0 <= i < self.order().len() && self.order()[i] == name;
                assert(entry_at(self.entries@, name, i));
            }
            if self@.contains_key(name) {
                let i = choose|i: int| entry_at(self.entries@, name, i);
                assert(self.order()[i] == name);
            }
        }
    }

    proof fn lemma_entry(&self, i: int)
        requires
            self.wf(),
            0 <= i < self.entries@.len(),
        ensures
            self@.contains_key(self.entries@[i].0@),
            self@[self.entries@[i].0@] == self.entries@[i].1,
            self.order()[i] == self.entries@[i].0@,
    {
        let name = self.entries@[i].0@;
        assert(entry_at(self.entries@, name, i));
        let k = choose|k: int| entry_at(self.entries@, name, k);
        assert(entry_at(self.entries@, name, k));
        assert(k == i);
    }

    /// An empty listing.
    pub fn new() -> (listing: Listing<V>)
        ensures
            listing.wf(),
            listing@ == Map::<Seq<char>, V>::empty(),
            listing.order() == Seq::<Seq<char>>::empty(),
    {
        let listing = Listing { entries: Vec::new() };
        assert(listing@ =~= Map::<Seq<char>, V>::empty());
        assert(listing.order() =~= Seq::<Seq<char>>::empty());
        listing
    }

    /// The number of entries.
    pub fn len(&self) -> (len: usize)
        ensures
            len == self.order().len(),
    {
        self.entries.len()
    }

    /// The entry at a place in the order.
    pub fn entry(&self, at: usize) -> (entry: (&str, &V))
        requires
            self.wf(),
            at < self.order().len(),
        ensures
            entry.0@ == self.order()[at as int],
            self@.contains_key(entry.0@),
            *entry.1 == self@[entry.0@],
    {
        proof {
            self.lemma_entry(at as int);
        }
        (self.entries[at].0.as_str(), &self.entries[at].1)
    }

    fn find(&self, name: &str) -> (found: Option<usize>)
        requires
            self.wf(),
        ensures
            match found {
                Some(at) => {
                    &&& at < self.entries@.len()
                    &&& self.entries@[at as int].0@ == name@
                },
                None => forall|i: int|
                    0 <= i < self.entries@.len() ==> (#[trigger] self.entries@[i]).0@ != name@,
            },
    {
        let mut i: usize = 0;
        while i < self.entries.len()
            invariant
                0 <= i <= self.entries.len(),
                forall|k: int| 0 <= k < i ==> (#[trigger] self.entries@[k]).0@ != name@,
            decreases self.entries.len() - i,
        {
            if same_text(self.entries[i].0.as_str(), name) {
                return Some(i);
            }
            i += 1;
        }
        None
    }

    /// The value of a name.
    pub fn get(&self, name: &str) -> (value: Option<&V>)
        requires
            self.wf(),
        ensures
            match value {
                Some(value) => self@.contains_key(name@) && *value == self@[name@],
                None => !self@.contains_key(name@),
            },
    {
        match self.find(name) {
            Some(at) => {
                proof {
                    self.lemma_entry(at as int);
                }
                Some(&self.entries[at].1)
            },
            None => None,
        }
    }

    /// Gives a name a value, in place of the one it may have.
    pub fn insert(&mut self, name: String, value: V)
        requires
            old(self).wf(),
        ensures
            final(self).wf(),
            final(self)@ == old(self)@.insert(name@, value),
            final(self).order() == if old(self)@.contains_key(name@) {
                old(self).order()
            } else {
                old(self).order().push(name@)
            },
    {
        let ghost before = *self;
        let found: Option<usize> = self.find(name.as_str());
        match found {
            Some(at) => {
                proof {
                    before.lemma_entry(at as int);
                }
                self.entries.set(at, (name, value));
                assert(self.order() =~= before.order());
            },
            None => {
                self.entries.push((name, value));
                assert(self.order() =~= before.order().push(name@));
            },
        }
        assert forall|other: Seq<char>| #[trigger]
            self@.contains_key(other) == before@.insert(name@, value).contains_key(other) by {
            if self@.contains_key(other) && other != name@ {
                let i = choose|i: int| entry_at(self.entries@, other, i);
                assert(entry_at(before.entries@, other, i));
            }
            if before@.contains_key(other) && other != name@ {
                let i = choose|i: int| entry_at(before.entries@, other, i);
                assert(entry_at(self.entries@, other, i));
            }
            if other == name@ {
                match found {
                    Some(at) => assert(entry_at(self.entries@, other, at as int)),
                    None => assert(entry_at(self.entries@, other, self.entries@.len() - 1)),
                }
            }
        }
        assert forall|other: Seq<char>| self@.contains_key(other) implies #[trigger] self@[other]
            == before@.insert(name@, value)[other] by {
            let i = choose|i: int| entry_at(self.entries@, other, i);
            self.lemma_entry(i);
            if other != name@ {
                before.lemma_entry(i);
            }
        }
        assert(self@ =~= before@.insert(name@, value));
    }
}

} // verus!
