//! The primary-key index: documents in a stable order, found by key.

use crate::document::{
    clash_at, clashes, distinct_keys, fetches, finds, has_key, lemma_position_of, put, selects, without, Document,
};
use crate::key_index::{append_key, key_position, new_key_set, ordered_keys, remove_key};
use indexmap::IndexSet;
use std::collections::hash_map::RandomState;
use vstd::prelude::*;

verus! {

/// The keys of `docs`, position by position.
pub open spec fn keys_of<T: Document<T>>(docs: Seq<T>) -> Seq<u128> {
    Seq::new(docs.len(), |i: int| docs[i].key())
}

/// An ordered mapping from primary key to document.
///
/// A new key takes the position after the last one; replacing the document
/// of a key keeps its position; removing a key moves the documents behind
/// it up by one.
pub struct DocumentIndex<T> {
    keys: IndexSet<u128, RandomState>,
    docs: Vec<T>,
}

impl<T: Document<T>> View for DocumentIndex<T> {
    type V = Seq<T>;

    /// The documents in the order of their positions.
    closed spec fn view(&self) -> Seq<T> {
        self.docs@
    }
}

impl<T: Document<T>> DocumentIndex<T> {
    /// The key set lists the documents' keys in their order, and no key
    /// occurs twice.
    pub closed spec fn wf(&self) -> bool {
        &&& ordered_keys(self.keys) == keys_of(self.docs@)
        &&& distinct_keys(self.docs@)
    }

    /// A well-formed index holds each key once.
    pub proof fn lemma_distinct(&self)
        requires
            self.wf(),
        ensures
            distinct_keys(self@),
    {
    }

    /// Creates an index without documents.
    pub fn new() -> (index: Self)
        ensures
            index.wf(),
            index@ == Seq::<T>::empty(),
    {
        let index = DocumentIndex { keys: new_key_set(), docs: Vec::new() };
        assert(ordered_keys(index.keys) =~= keys_of(index.docs@));
        index
    }

    /// The number of documents.
    pub fn len(&self) -> (n: usize)
        ensures
            n == self@.len(),
    {
        self.docs.len()
    }

    /// The position of the document with the key `key`.
    pub fn get_index_of(&self, key: u128) -> (found: Option<usize>)
        requires
            self.wf(),
        ensures
            match found {
                Some(i) => i < self@.len() && self@[i as int].key() == key,
                None => !has_key(self@, key),
            },
    {
        let found = key_position(&self.keys, key);
        proof {
            let keys = ordered_keys(self.keys);
            match found {
                Some(i) => {
                    assert(keys[i as int] == self.docs@[i as int].key());
                },
                None => {
                    if has_key(self@, key) {
                        let i = choose|i: int| 0 <= i < self@.len() && (#[trigger] self@[i]).key() == key;
                        assert(keys[i] == key);
                        assert(keys.contains(key));
                    }
                },
            }
        }
        found
    }

    /// The document at position `i`, if there is one.
    pub fn get_index(&self, i: usize) -> (doc: Option<&T>)
        ensures
            doc.is_some() == (i < self@.len()),
            doc.is_some() ==> *doc.unwrap() == self@[i as int],
    {
        if i < self.docs.len() {
            Some(&self.docs[i])
        } else {
            None
        }
    }

    /// Puts `doc` under its key: in the place of the document that has the
    /// key, or at the end where no document has it. Returns the position.
    pub fn insert(&mut self, doc: T) -> (position: usize)
        requires
            old(self).wf(),
        ensures
            final(self).wf(),
            final(self)@ == put(old(self)@, doc),
            has_key(old(self)@, doc.key()) ==> position < old(self)@.len() && old(self)@[position as int].key()
                == doc.key() && final(self)@ == old(self)@.update(position as int, doc),
            !has_key(old(self)@, doc.key()) ==> position == old(self)@.len() && final(self)@ == old(
                self,
            )@.push(doc),
    {
        let key = doc.primary_key();
        match self.get_index_of(key) {
            Some(i) => {
                self.docs[i] = doc;
                proof {
                    assert(has_key(old(self)@, key));
                    lemma_position_of(old(self)@, key, i as int);
                    assert(keys_of(self.docs@) =~= keys_of(old(self).docs@));
                }
                i
            },
            None => {
                let ghost before = self.docs@;
                let position = self.docs.len();
                let added = append_key(&mut self.keys, key);
                self.docs.push(doc);
                proof {
                    if ordered_keys(old(self).keys).contains(key) {
                        let i = choose|i: int| 0 <= i < before.len() && keys_of(before)[i] == key;
                        assert(before[i].key() == key);
                    }
                    assert(added);
                    assert(keys_of(self.docs@) =~= keys_of(before).push(key));
                }
                position
            },
        }
    }

    /// Removes the document with the key `key` and moves those behind it up
    /// by one position. Returns the position it had.
    pub fn shift_remove(&mut self, key: u128) -> (removed: Option<usize>)
        requires
            old(self).wf(),
        ensures
            final(self).wf(),
            final(self)@ == without(old(self)@, key),
            match removed {
                Some(i) => i < old(self)@.len() && old(self)@[i as int].key() == key && final(self)@ == old(
                    self,
                )@.remove(i as int),
                None => !has_key(old(self)@, key) && final(self)@ == old(self)@,
            },
    {
        let ghost before = self.docs@;
        let removed = remove_key(&mut self.keys, key);
        match removed {
            Some(i) => {
                self.docs.remove(i);
                proof {
                    assert(keys_of(before)[i as int] == before[i as int].key());
                    lemma_position_of(before, key, i as int);
                    assert(keys_of(self.docs@) =~= keys_of(before).remove(i as int));
                    assert forall|a: int, b: int| 0 <= a < b < self.docs@.len() implies (
                    #[trigger] self.docs@[a]).key() != (#[trigger] self.docs@[b]).key() by {
                        let oa = if a < i { a } else { a + 1 };
                        let ob = if b < i { b } else { b + 1 };
                        assert(before[oa].key() != before[ob].key());
                    }
                }
            },
            None => {
                proof {
                    if has_key(before, key) {
                        let i = choose|i: int| 0 <= i < before.len() && (#[trigger] before[i]).key() == key;
                        assert(keys_of(before)[i] == key);
                        assert(keys_of(before).contains(key));
                    }
                }
            },
        }
        removed
    }

    /// Whether `doc` clashes with a document under another key.
    pub fn clashes_with(&self, doc: &T) -> (clash: bool)
        ensures
            clash == clashes(self@, *doc),
    {
        let key = doc.primary_key();
        let mut i: usize = 0;
        while i < self.docs.len()
            invariant
                i <= self.docs@.len(),
                key == doc.key(),
                forall|k: int| 0 <= k < i ==> !clash_at(self.docs@, *doc, k),
            decreases self.docs@.len() - i,
        {
            let existing = &self.docs[i];
            if existing.primary_key() != key {
                if doc.intersects(existing).is_err() {
                    assert(clash_at(self@, *doc, i as int));
                    return true;
                }
            }
            i = i + 1;
        }
        false
    }

    /// A clone of the document under the key `key`.
    pub fn get(&self, key: u128) -> (got: Option<T>) where T: Clone
        requires
            self.wf(),
        ensures
            fetches(self@, key, got),
    {
        match self.get_index_of(key) {
            Some(i) => {
                proof {
                    lemma_position_of(self@, key, i as int);
                }
                Some(self.docs[i].clone())
            },
            None => None,
        }
    }

    /// Clones of the documents that `f` accepts, in their order.
    pub fn filter<F: Fn(&T) -> bool>(&self, f: F) -> (picked: Vec<T>) where T: Clone
        requires
            forall|i: int| 0 <= i < self@.len() ==> call_requires(f, (&#[trigger] self@[i],)),
        ensures
            selects(f, self@, picked@),
    {
        let mut picked: Vec<T> = Vec::new();
        let mut i: usize = 0;
        assert(self.docs@.take(0) =~= Seq::<T>::empty());
        assert forall|k: int| 0 <= k < self.docs@.len() implies call_requires(f, (&#[trigger] self.docs@[k],)) by {
            assert(self@[k] == self.docs@[k]);
        }
        while i < self.docs.len()
            invariant
                i <= self.docs@.len(),
                forall|k: int| 0 <= k < self.docs@.len() ==> call_requires(f, (&#[trigger] self.docs@[k],)),
                selects(f, self.docs@.take(i as int), picked@),
            decreases self.docs@.len() - i,
        {
            let doc = &self.docs[i];
            let ghost before = picked@;
            proof {
                assert(self.docs@.take(i + 1).drop_last() =~= self.docs@.take(i as int));
                assert(self.docs@.take(i + 1).last() == self.docs@[i as int]);
            }
            if f(doc) {
                picked.push(doc.clone());
                assert(picked@.drop_last() =~= before);
            }
            i = i + 1;
        }
        assert(self.docs@.take(i as int) =~= self.docs@);
        picked
    }

    /// A clone of the first document that `f` accepts.
    pub fn find<F: Fn(&T) -> bool>(&self, f: F) -> (found: Option<T>) where T: Clone
        requires
            forall|i: int| 0 <= i < self@.len() ==> call_requires(f, (&#[trigger] self@[i],)),
        ensures
            finds(f, self@, found),
    {
        let mut i: usize = 0;
        assert forall|k: int| 0 <= k < self.docs@.len() implies call_requires(f, (&#[trigger] self.docs@[k],)) by {
            assert(self@[k] == self.docs@[k]);
        }
        while i < self.docs.len()
            invariant
                i <= self.docs@.len(),
                forall|k: int| 0 <= k < self.docs@.len() ==> call_requires(f, (&#[trigger] self.docs@[k],)),
                forall|k: int| 0 <= k < i ==> #[trigger] call_ensures(f, (&self.docs@[k],), false),
            decreases self.docs@.len() - i,
        {
            let doc = &self.docs[i];
            if f(doc) {
                let found = doc.clone();
                assert(call_ensures(f, (&self.docs@[i as int],), true));
                return Some(found);
            }
            i = i + 1;
        }
        None
    }
}

} // verus!
