//! A map from names to values that remembers the order of insertion.
use vstd::hash_map::StringHashMap;
use vstd::prelude::*;

verus! {

/// A map from names to values. The entries are kept in the order in which their
/// names were first inserted.
#[verifier::reject_recursive_types(V)]
pub struct NameMap<V> {
    index: StringHashMap<usize>,
    entries: Vec<(String, V)>,
}

impl<V> View for NameMap<V> {
    type V = Map<Seq<char>, V>;

    closed spec fn view(&self) -> Map<Seq<char>, V> {
        Map::new(
            |name: Seq<char>| self.index@.contains_key(name),
            |name: Seq<char>| self.entries@[self.index@[name] as int].1,
        )
    }
}

impl<V> NameMap<V> {
    /// The names in the order of insertion.
    pub closed spec fn names(&self) -> Seq<Seq<char>> {
        self.entries@.map_values(|entry: (String, V)| entry.0@)
    }

    /// The index finds every entry under its own name, and nothing else.
    pub closed spec fn wf(&self) -> bool {
        &&& forall|i: int|
            0 <= i < self.entries@.len() ==> {
                &&& self.index@.contains_key((#[trigger] self.entries@[i]).0@)
                &&& self.index@[self.entries@[i].0@] == i
            }
        &&& forall|name: Seq<char>| #[trigger]
            self.index@.contains_key(name) ==> {
                &&& self.index@[name] < self.entries@.len()
                &&& self.entries@[self.index@[name] as int].0@ == name
            }
    }

    /// Each name of the map occurs once among the names, and no other name does.
    pub proof fn lemma_names(&self)
        requires
            self.wf(),
        ensures
            self.names().no_duplicates(),
            self.names().to_set() == self@.dom(),
            self@.dom().finite(),
            self@.dom().len() == self.names().len(),
    {
        assert forall|i: int, j: int|
            0 <= i < self.names().len() && 0 <= j < self.names().len() && i != j implies self.names()[i]
            != self.names()[j] by {
            assert(self.index@[self.entries@[i].0@] == i);
            assert(self.index@[self.entries@[j].0@] == j);
        }
        assert forall|name: Seq<char>| self.names().to_set().contains(name) == self@.dom().contains(
            name,
        ) by {
            if self@.dom().contains(name) {
                assert(self.names()[self.index@[name] as int] == name);
            }
            if self.names().contains(name) {
                let i = choose|i: int| 0 <= i < self.names().len() && self.names()[i] == name;
                assert(self.entries@[i].0@ == name);
            }
        }
        assert(self.names().to_set() =~= self@.dom());
        self.names().unique_seq_to_set();
        vstd::seq_lib::seq_to_set_is_finite(self.names());
    }

    /// The names of the map are those among the names.
    pub proof fn lemma_contains(&self, name: Seq<char>)
        requires
            self.wf(),
        ensures
            self@.contains_key(name) <==> self.names().contains(name),
    {
        self.lemma_names();
        assert(self@.dom().contains(name) <==> self.names().to_set().contains(name));
    }

    pub fn new() -> (map: NameMap<V>)
        ensures
            map.wf(),
            map@ == Map::<Seq<char>, V>::empty(),
            map.names() == Seq::<Seq<char>>::empty(),
    {
        let map = NameMap { index: StringHashMap::new(), entries: Vec::new() };
        assert(map@ =~= Map::<Seq<char>, V>::empty());
        assert(map.names() =~= Seq::<Seq<char>>::empty());
        map
    }

    /// How many names the map holds.
    pub fn len(&self) -> (len: usize)
        requires
            self.wf(),
        ensures
            len == self@.len(),
            len == self.names().len(),
    {
        proof {
            self.lemma_names();
        }
        self.entries.len()
    }

    pub fn contains_key(&self, name: &str) -> (result: bool)
        requires
            self.wf(),
        ensures
            result == self@.contains_key(name@),
    {
        self.index.contains_key(name)
    }

    pub fn get(&self, name: &str) -> (result: Option<&V>)
        requires
            self.wf(),
        ensures
            match result {
                Some(value) => self@.contains_key(name@) && *value == self@[name@],
                None => !self@.contains_key(name@),
            },
    {
        match self.index.get(name) {
            Some(position) => Some(&self.entries[*position].1),
            None => None,
        }
    }

    /// The name at a position in the order of insertion.
    pub fn name_at(&self, position: usize) -> (name: &String)
        requires
            self.wf(),
            position < self.names().len(),
        ensures
            name@ == self.names()[position as int],
            self@.contains_key(name@),
    {
        &self.entries[position].0
    }

    /// The value at a position in the order of insertion.
    pub fn value_at(&self, position: usize) -> (value: &V)
        requires
            self.wf(),
            position < self.names().len(),
        ensures
            *value == self@[self.names()[position as int]],
    {
        &self.entries[position].1
    }

    /// Maps `name` to `value`, in place of what it was mapped to before.
    pub fn insert(&mut self, name: String, value: V)
        requires
            old(self).wf(),
        ensures
            final(self).wf(),
            final(self)@ == old(self)@.insert(name@, value),
            final(self).names() == if old(self)@.contains_key(name@) {
                old(self).names()
            } else {
                old(self).names().push(name@)
            },
    {
        let found: Option<usize> = match self.index.get(name.as_str()) {
            Some(position) => Some(*position),
            None => None,
        };
        match found {
            Some(position) => {
                let ghost before = self.entries@;
                self.entries.set(position, (name, value));
                assert(self.names() =~= old(self).names());
                assert(self@ =~= old(self)@.insert(name@, value));
            },
            None => {
                let position: usize = self.entries.len();
                self.index.insert(name.clone(), position);
                self.entries.push((name, value));
                assert(self.names() =~= old(self).names().push(name@));
                assert(self@ =~= old(self)@.insert(name@, value));
            },
        }
    }
}

} // verus!
