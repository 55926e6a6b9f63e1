//! A table keyed by names, which remembers the order in which names came in.

use vstd::hash_map::StringHashMap;
use vstd::prelude::*;

verus! {

/// A map from names to values. Looking a name up takes constant time, and the entries
/// can be walked in the order in which their names first came in.
pub struct Table<V> {
    index: StringHashMap<usize>,
    names: Vec<String>,
    values: Vec<V>,
}

impl<V> View for Table<V> {
    type V = Map<Seq<char>, V>;

    closed spec fn view(&self) -> Map<Seq<char>, V> {
        Map::new(
            |name: Seq<char>| self.index@.contains_key(name),
            |name: Seq<char>| self.values@[self.index@[name] as int],
        )
    }
}

impl<V> Table<V> {
    pub closed spec fn wf(&self) -> bool {
        &&& self.names@.len() == self.values@.len()
        &&& forall|name: Seq<char>| #[trigger]
            self.index@.contains_key(name) ==> {
                &&& self.index@[name] < self.names@.len()
                &&& self.names@[self.index@[name] as int]@ == name
            }
        &&& forall|i: int|
            0 <= i < self.names@.len() ==> {
                &&& self.index@.contains_key((#[trigger] self.names@[i])@)
                &&& self.index@[self.names@[i]@] == i
            }
    }

    /// The names in the order in which they came in.
    pub closed spec fn order(&self) -> Seq<Seq<char>> {
        self.names@.map_values(|name: String| name@)
    }

    /// An empty table.
    pub fn new() -> (table: Table<V>)
        ensures
            table.wf(),
            table@ == Map::<Seq<char>, V>::empty(),
            table.order() == Seq::<Seq<char>>::empty(),
    {
        let table = Table {
            index: StringHashMap::new(),
            names: Vec::new(),
            values: Vec::new(),
        };
        assert(table@ =~= Map::<Seq<char>, V>::empty());
        assert(table.order() =~= Seq::<Seq<char>>::empty());
        table
    }

    /// The names of a table are in its order, each once.
    pub proof fn lemma_order(&self)
        requires
            self.wf(),
        ensures
            self.order().no_duplicates(),
            forall|name: Seq<char>| self.order().contains(name) <==> self@.contains_key(name),
    {
        assert forall|name: Seq<char>|
            self.order().contains(name) <==> self@.contains_key(name) by {
            if self.order().contains(name) {
                let i = choose|i: int| 0 <= i < self.order().len() && self.order()[i] == name;
                assert(self.names@[i]@ == name);
            }
            if self@.contains_key(name) {
                assert(self.order()[self.index@[name] as int] == name);
            }
        }
    }

    /// The number of entries.
    pub fn len(&self) -> (len: usize)
        requires
            self.wf(),
        ensures
            len == self.order().len(),
    {
        self.names.len()
    }

    /// Where a name stands in the order.
    pub fn find(&self, name: &str) -> (found: Option<usize>)
        requires
            self.wf(),
        ensures
            match found {
                Some(at) => {
                    &&& at < self.order().len()
                    &&& self.order()[at as int] == name@
                    &&& self@.contains_key(name@)
                },
                None => !self@.contains_key(name@),
            },
    {
        match self.index.get(name) {
            Some(at) => Some(*at),
            None => None,
        }
    }

    /// The value of a name.
    pub fn get(&self, name: &str) -> (value: Option<&V>)
        requires
            self.wf(),
        ensures
            match value {
                Some(value) => self@.contains_key(name@) && *value == self@[name@],
                None => !self@.contains_key(name@),
            },
    {
        match self.index.get(name) {
            Some(at) => Some(&self.values[*at]),
            None => None,
        }
    }

    /// The value at a place in the order.
    pub fn value(&self, at: usize) -> (value: &V)
        requires
            self.wf(),
            at < self.order().len(),
        ensures
            *value == self@[self.order()[at as int]],
    {
        &self.values[at]
    }

    /// The value at a place in the order, to be changed.
    pub fn value_mut(&mut self, at: usize) -> (value: &mut V)
        requires
            old(self).wf(),
            at < old(self).order().len(),
        ensures
            *value == old(self)@[old(self).order()[at as int]],
            final(self).wf(),
            final(self).order() == old(self).order(),
            final(self)@ == old(self)@.insert(old(self).order()[at as int], *final(value)),
    {
        &mut self.values[at]
    }

    /// Adds an entry for a name that has none.
    pub fn append(&mut self, name: String, value: V)
        requires
            old(self).wf(),
            !old(self)@.contains_key(name@),
        ensures
            final(self).wf(),
            final(self).order() == old(self).order().push(name@),
            final(self)@ == old(self)@.insert(name@, value),
    {
        let ghost before = *self;
        let at: usize = self.names.len();
        self.index.insert(name.clone(), at);
        self.names.push(name);
        self.values.push(value);
        assert(self.order() =~= before.order().push(name@));
        assert(self@ =~= before@.insert(name@, value));
    }
}

} // verus!
