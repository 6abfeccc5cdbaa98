//! The value store: byte strings kept under text keys.

use crate::assoc::{
    entries_map, keys_distinct, lemma_entries_map_distinct, lemma_entries_map_domain,
    lemma_entries_map_push, lemma_entries_map_update,
};
use crate::text::same_text;
use vstd::prelude::*;
use vstd::slice::slice_to_vec;

verus! {

/// The entries of a store with each key as its characters.
pub open spec fn entry_views(entries: Seq<(String, Vec<u8>)>) -> Seq<(Seq<char>, Seq<u8>)> {
    Seq::new(entries.len(), |i: int| (entries[i].0@, entries[i].1@))
}

/// A map from keys to byte strings. Keys are meant to be identifiers in text
/// form; the store itself does not check them.
pub struct ValueStore {
    values: Vec<(String, Vec<u8>)>,
}

impl View for ValueStore {
    type V = Map<Seq<char>, Seq<u8>>;

    closed spec fn view(&self) -> Map<Seq<char>, Seq<u8>> {
        entries_map(entry_views(self.values@))
    }
}

impl ValueStore {
    #[verifier::type_invariant]
    spec fn keys_are_distinct(&self) -> bool {
        keys_distinct(entry_views(self.values@))
    }

    /// The position of the entry with the key `key`, if there is one.
    fn position(&self, key: &str) -> (r: Option<usize>)
        ensures
            match r {
                Some(i) => i < self.values@.len() && self.values@[i as int].0@ == key@,
                None => forall|i: int|
                    0 <= i < self.values@.len() ==> (#[trigger] self.values@[i]).0@ != key@,
            },
    {
        let mut i: usize = 0;
        while i < self.values.len()
            invariant
                i <= self.values@.len(),
                forall|j: int| 0 <= j < i ==> (#[trigger] self.values@[j]).0@ != key@,
            decreases self.values@.len() - i,
        {
            if same_text(self.values[i].0.as_str(), key) {
                return Some(i);
            }
            i = i + 1;
        }
        None
    }

    /// A store with the given entries; of two entries with one key the later stays.
    pub fn new(values: Vec<(String, Vec<u8>)>) -> (r: Result<Self, String>)
        ensures
            r is Ok,
            r->Ok_0@ == entries_map(entry_views(values@)),
    {
        let mut store = ValueStore { values: Vec::new() };
        let mut i: usize = 0;
        assert(entry_views(values@).subrange(0, 0) =~= Seq::empty());
        while i < values.len()
            invariant
                i <= values@.len(),
                store@ == entries_map(entry_views(values@).subrange(0, i as int)),
            decreases values@.len() - i,
        {
            proof {
                let next = entry_views(values@).subrange(0, i + 1);
                assert(next.drop_last() =~= entry_views(values@).subrange(0, i as int));
                assert(next.last() == (values@[i as int].0@, values@[i as int].1@));
            }
            store.store(values[i].0.as_str(), values[i].1.as_slice());
            i = i + 1;
        }
        assert(entry_views(values@).subrange(0, values@.len() as int) =~= entry_views(values@));
        Ok(store)
    }

    /// Keeps `value` under `key`, in place of what was kept there.
    pub fn store(&mut self, key: &str, value: &[u8])
        ensures
            final(self)@ == old(self)@.insert(key@, value@),
    {
        proof {
            use_type_invariant(&*self);
        }
        let ghost before = entry_views(self.values@);
        let found = self.position(key);
        let mut values: Vec<(String, Vec<u8>)> = Vec::new();
        assert(keys_distinct(entry_views(values@)));
        std::mem::swap(&mut self.values, &mut values);
        match found {
            Some(i) => {
                proof {
                    lemma_entries_map_update(before, i as int, value@);
                }
                values.set(i, (key.to_owned(), slice_to_vec(value)));
                assert(entry_views(values@) =~= before.update(i as int, (key@, value@)));
            },
            None => {
                values.push((key.to_owned(), slice_to_vec(value)));
                assert(entry_views(values@) =~= before.push((key@, value@)));
                assert(entry_views(values@).drop_last() =~= before);
                assert forall|i: int, j: int| 0 <= i < j < values@.len() implies (
                #[trigger] entry_views(values@)[i]).0 != (#[trigger] entry_views(values@)[j]).0 by {
                    if j < values@.len() - 1 {
                        assert(before[i].0 != before[j].0);
                    } else {
                        assert(old(self).values@[i].0@ != key@);
                    }
                }
            },
        }
        self.values = values;
    }

    /// What is kept under `key`, if anything.
    pub fn retrieve(&self, key: &str) -> (r: Option<&Vec<u8>>)
        ensures
            match r {
                Some(value) => self@.contains_key(key@) && value@ == self@[key@],
                None => !self@.contains_key(key@),
            },
    {
        proof {
            use_type_invariant(self);
            lemma_entries_map_domain(entry_views(self.values@), key@);
            lemma_entries_map_distinct(entry_views(self.values@));
        }
        match self.position(key) {
            Some(i) => {
                assert(entry_views(self.values@)[i as int].0 == key@);
                Some(&self.values[i].1)
            },
            None => {
                assert forall|i: int| 0 <= i < self.values@.len() implies (#[trigger] entry_views(
                    self.values@,
                )[i]).0 != key@ by {
                    assert(self.values@[i].0@ != key@);
                }
                None
            },
        }
    }

    /// The number of keys.
    pub fn len(&self) -> (r: usize)
        ensures
            r == self@.len(),
            self@.dom().finite(),
    {
        proof {
            use_type_invariant(self);
            lemma_entries_map_distinct(entry_views(self.values@));
            lemma_entries_map_domain(entry_views(self.values@), Seq::empty());
        }
        self.values.len()
    }

    /// The entries of the store, each key once.
    pub fn values(&self) -> (r: Vec<(String, Vec<u8>)>)
        ensures
            entries_map(entry_views(r@)) == self@,
            keys_distinct(entry_views(r@)),
            r@.len() == self@.len(),
    {
        proof {
            use_type_invariant(self);
            lemma_entries_map_distinct(entry_views(self.values@));
        }
        let mut r: Vec<(String, Vec<u8>)> = Vec::new();
        let mut i: usize = 0;
        while i < self.values.len()
            invariant
                i <= self.values@.len(),
                r@.len() == i,
                forall|j: int|
                    0 <= j < i ==> (#[trigger] r@[j]).0@ == self.values@[j].0@ && r@[j].1@
                        == self.values@[j].1@,
            decreases self.values@.len() - i,
        {
            r.push((self.values[i].0.clone(), self.values[i].1.clone()));
            i = i + 1;
        }
        assert(entry_views(r@) =~= entry_views(self.values@));
        r
    }
}

} // verus!
