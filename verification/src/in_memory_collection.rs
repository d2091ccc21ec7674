//! A collection that lives in memory alone.

use crate::document::{
    delete_refusal, distinct_keys, fetches, finds, insert_refusal, put, selects, update_refusal, without,
    Document,
};
use crate::error::Error;
use crate::index::DocumentIndex;
use vstd::prelude::*;

verus! {

/// An in memory collection that manages a set of documents in the same
/// fashion as the persisted ones.
pub struct InMemoryCollection<T> {
    documents: DocumentIndex<T>,
}

impl<T: Document<T>> View for InMemoryCollection<T> {
    type V = Seq<T>;

    /// The documents of the collection, in the order of their positions.
    closed spec fn view(&self) -> Seq<T> {
        self.documents@
    }
}

impl<T: Document<T>> InMemoryCollection<T> {
    /// The index is sound.
    pub closed spec fn wf(&self) -> bool {
        self.documents.wf()
    }

    /// The keys of a sound collection are distinct.
    pub proof fn lemma_distinct(&self)
        requires
            self.wf(),
        ensures
            distinct_keys(self@),
    {
        self.documents.lemma_distinct();
    }

    /// Creates a collection without documents.
    pub fn new() -> (collection: Self)
        ensures
            collection.wf(),
            collection@ == Seq::<T>::empty(),
    {
        InMemoryCollection { documents: DocumentIndex::new() }
    }

    /// The number of documents.
    pub fn len(&self) -> (n: usize)
        ensures
            n == self@.len(),
    {
        self.documents.len()
    }

    /// Insert a new document behind the others. Refused with `DuplicateKey`
    /// where its key is taken, else with `ConstraintViolation` where it
    /// clashes with a document.
    pub fn insert(&mut self, new_doc: T) -> (done: Result<(), Error>)
        requires
            old(self).wf(),
        ensures
            final(self).wf(),
            match insert_refusal(old(self)@, new_doc) {
                Some(e) => done == Err::<(), Error>(e) && final(self)@ == old(self)@,
                None => done == Ok::<(), Error>(()) && final(self)@ == old(self)@.push(new_doc),
            },
    {
        if self.documents.get_index_of(new_doc.primary_key()).is_some() {
            return Err(Error::DuplicateKey);
        }
        if self.documents.clashes_with(&new_doc) {
            return Err(Error::ConstraintViolation);
        }
        self.documents.insert(new_doc);
        Ok(())
    }

    /// Update a document: `updated_doc` takes the place of the document
    /// that has its key. Refused with `ConstraintViolation` where it
    /// clashes with a document under another key, else with `KeyNotFound`
    /// where no document has its key.
    pub fn update(&mut self, updated_doc: T) -> (done: Result<(), Error>)
        requires
            old(self).wf(),
        ensures
            final(self).wf(),
            match update_refusal(old(self)@, updated_doc) {
                Some(e) => done == Err::<(), Error>(e) && final(self)@ == old(self)@,
                None => done == Ok::<(), Error>(()) && final(self)@ == put(old(self)@, updated_doc),
            },
    {
        if self.documents.clashes_with(&updated_doc) {
            return Err(Error::ConstraintViolation);
        }
        if self.documents.get_index_of(updated_doc.primary_key()).is_none() {
            return Err(Error::KeyNotFound);
        }
        self.documents.insert(updated_doc);
        Ok(())
    }

    /// Find all documents that meet the criteria: clones of them, in the
    /// order of their positions.
    pub fn filter<F: Fn(&T) -> bool>(&self, f: F) -> (picked: Vec<T>) where T: Clone
        requires
            forall|i: int| 0 <= i < self@.len() ==> call_requires(f, (&#[trigger] self@[i],)),
        ensures
            selects(f, self@, picked@),
    {
        assert forall|i: int| 0 <= i < self.documents@.len() implies call_requires(
            f,
            (&#[trigger] self.documents@[i],),
        ) by {
            assert(self@[i] == self.documents@[i]);
        }
        self.documents.filter(f)
    }

    /// Find the first document that satisfies the criteria.
    pub fn find<F: Fn(&T) -> bool>(&self, f: F) -> (found: Option<T>) where T: Clone
        requires
            forall|i: int| 0 <= i < self@.len() ==> call_requires(f, (&#[trigger] self@[i],)),
        ensures
            finds(f, self@, found),
    {
        assert forall|i: int| 0 <= i < self.documents@.len() implies call_requires(
            f,
            (&#[trigger] self.documents@[i],),
        ) by {
            assert(self@[i] == self.documents@[i]);
        }
        self.documents.find(f)
    }

    /// Get a document by its key.
    pub fn by_primary_key(&self, uuid: &u128) -> (got: Option<T>) where T: Clone
        requires
            self.wf(),
        ensures
            fetches(self@, *uuid, got),
    {
        self.documents.get(*uuid)
    }

    /// Remove a document. Refused with `KeyNotFound` where no document has
    /// the key.
    pub fn delete(&mut self, pk: &u128) -> (done: Result<(), Error>)
        requires
            old(self).wf(),
        ensures
            final(self).wf(),
            match delete_refusal(old(self)@, *pk) {
                Some(e) => done == Err::<(), Error>(e) && final(self)@ == old(self)@,
                None => done == Ok::<(), Error>(()) && final(self)@ == without(old(self)@, *pk),
            },
    {
        match self.documents.shift_remove(*pk) {
            Some(_) => Ok(()),
            None => Err(Error::KeyNotFound),
        }
    }
}

} // verus!
