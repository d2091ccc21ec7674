//! A collection that lives in a single file of slots of one size.

use crate::collection::{Collection, BYTE_LENGTH_INCREMENT, INITIAL_BYTE_LENGTH};
use crate::document::{distinct_keys, fetches, finds, selects, Document};
use crate::error::Error;
use crate::file_load::loaded;
use crate::machine::{
    answer_of, commit_step, delete_step, insert_step, update_step, CollectionBackend, State,
};
use crate::storage::StorageOp;
use std::path::PathBuf;
use vstd::prelude::*;

verus! {

/// A collection that manages a set of documents kept in one file.
///
/// Its slots start at 128 bytes. Changes are made in two steps, as for
/// every persisted collection.
pub struct FileBasedCollection<T> {
    inner: Collection<T>,
}

impl<T: Document<T>> View for FileBasedCollection<T> {
    type V = Seq<T>;

    /// The documents of the collection, in the order of their slots.
    closed spec fn view(&self) -> Seq<T> {
        self.inner@
    }
}

impl<T: Document<T>> FileBasedCollection<T> {
    /// The collection is sound and keeps its documents in a file that has
    /// a path.
    pub closed spec fn wf(&self) -> bool {
        &&& self.inner.wf()
        &&& self.inner.state().backend == CollectionBackend::File
        &&& self.inner.spec_path().is_some()
    }

    /// Where the file lies.
    pub closed spec fn spec_path(&self) -> Option<PathBuf> {
        self.inner.spec_path()
    }

    /// The collection as a state of the machine.
    pub closed spec fn state(&self) -> State<T> {
        self.inner.state()
    }

    /// The view of a collection is the documents of its state, and a sound
    /// collection keeps them in a file.
    pub proof fn lemma_view(&self)
        ensures
            self@ == self.state().docs,
            self.wf() ==> self.state().backend == CollectionBackend::File,
    {
        self.inner.lemma_view();
    }

    /// The keys of a sound collection are distinct.
    pub proof fn lemma_distinct(&self)
        requires
            self.wf(),
        ensures
            distinct_keys(self@),
            distinct_keys(self.state().docs),
    {
        self.inner.lemma_distinct();
        self.inner.lemma_view();
    }

    /// Creates a collection without documents for the file at `fp`, with
    /// slots of 128 bytes that grow by `byte_length_increment`, or by 64
    /// where none is given.
    pub fn new(fp: PathBuf, byte_length_increment: Option<usize>) -> (collection: Self)
        ensures
            collection.wf(),
            collection.spec_path() == Some(fp),
            collection.state() == (State {
                backend: CollectionBackend::File,
                docs: Seq::<T>::empty(),
                slot: INITIAL_BYTE_LENGTH as nat,
                increment: match byte_length_increment {
                    Some(step) => step as nat,
                    None => BYTE_LENGTH_INCREMENT as nat,
                },
                staged: None,
            }),
    {
        FileBasedCollection {
            inner: Collection::with_slot_sizes(CollectionBackend::File, Some(fp), byte_length_increment, None),
        }
    }

    /// Reads the record file, whose bytes are `bytes`, into the collection.
    pub fn load_structs_from_file(&mut self, bytes: &[u8])
        requires
            old(self).wf(),
        ensures
            final(self).wf(),
            final(self).spec_path() == old(self).spec_path(),
            final(self).state() == (State {
                docs: loaded(old(self)@, bytes@, 0),
                staged: None,
                ..old(self).state()
            }),
    {
        self.inner.load_structs_from_file(bytes);
    }

    /// Checks the insert of `doc` and answers with the operations that put
    /// it into the file.
    ///
    /// The conflict rule is asked of `doc` against each stored document
    /// under another key, as in every collection; a stored document is
    /// never asked.
    pub fn insert(&mut self, doc: T) -> (answer: Result<Vec<StorageOp>, Error>)
        requires
            old(self).wf(),
        ensures
            final(self).wf(),
            final(self).spec_path() == old(self).spec_path(),
            final(self).state() == insert_step(old(self).state(), doc).state,
            answer_of(answer) == insert_step(old(self).state(), doc).answer,
    {
        self.inner.insert(doc)
    }

    /// Checks the update to `doc` and answers with the operations that put
    /// it into the slot of its key.
    ///
    /// The conflict rule is asked of `doc` against each stored document
    /// under another key; a stored document is never asked.
    pub fn update(&mut self, doc: T) -> (answer: Result<Vec<StorageOp>, Error>)
        requires
            old(self).wf(),
        ensures
            final(self).wf(),
            final(self).spec_path() == old(self).spec_path(),
            final(self).state() == update_step(old(self).state(), doc).state,
            answer_of(answer) == update_step(old(self).state(), doc).answer,
    {
        self.inner.update(doc)
    }

    /// Checks dropping the document with the key `uuid` and answers with
    /// the operations that write the file out afresh without it.
    pub fn delete(&mut self, uuid: &u128) -> (answer: Result<Vec<StorageOp>, Error>)
        requires
            old(self).wf(),
        ensures
            final(self).wf(),
            final(self).spec_path() == old(self).spec_path(),
            final(self).state() == delete_step(old(self).state(), *uuid).state,
            answer_of(answer) == delete_step(old(self).state(), *uuid).answer,
    {
        self.inner.delete(uuid)
    }

    /// Takes the outcome of the operations that the last change answered
    /// with: makes the staged change where they were carried out, drops it
    /// where they were not.
    pub fn commit(&mut self, written: bool) -> (done: Result<(), Error>)
        requires
            old(self).wf(),
        ensures
            final(self).wf(),
            final(self).spec_path() == old(self).spec_path(),
            final(self).state() == commit_step(old(self).state(), written),
            done == if written {
                Ok::<(), Error>(())
            } else {
                Err::<(), Error>(Error::IoFailure)
            },
    {
        self.inner.commit(written)
    }

    /// The number of documents.
    pub fn len(&self) -> (n: usize)
        ensures
            n == self@.len(),
    {
        self.inner.len()
    }

    /// Where the file lies.
    pub fn path(&self) -> (path: &Option<PathBuf>)
        ensures
            *path == self.spec_path(),
    {
        self.inner.path()
    }

    /// The slot size.
    pub fn max_byte_length(&self) -> (size: usize)
        ensures
            size == self.state().slot,
    {
        self.inner.max_byte_length()
    }

    /// The step by which the slot size grows.
    pub fn byte_length_increment(&self) -> (step: usize)
        ensures
            step == self.state().increment,
    {
        self.inner.byte_length_increment()
    }

    /// Find all documents that meet the criteria: clones of them, in the
    /// order of their slots.
    pub fn filter<F: Fn(&T) -> bool>(&self, f: F) -> (picked: Vec<T>) where T: Clone
        requires
            forall|i: int| 0 <= i < self@.len() ==> call_requires(f, (&#[trigger] self@[i],)),
        ensures
            selects(f, self@, picked@),
    {
        assert forall|i: int| 0 <= i < self.inner@.len() implies call_requires(f, (&#[trigger] self.inner@[i],)) by {
            assert(self@[i] == self.inner@[i]);
        }
        self.inner.filter(f)
    }

    /// Find the first document that satisfies the criteria.
    pub fn find<F: Fn(&T) -> bool>(&self, f: F) -> (found: Option<T>) where T: Clone
        requires
            forall|i: int| 0 <= i < self@.len() ==> call_requires(f, (&#[trigger] self@[i],)),
        ensures
            finds(f, self@, found),
    {
        assert forall|i: int| 0 <= i < self.inner@.len() implies call_requires(f, (&#[trigger] self.inner@[i],)) by {
            assert(self@[i] == self.inner@[i]);
        }
        self.inner.find(f)
    }

    /// Get a document by its key.
    pub fn by_primary_key(&self, uuid: &u128) -> (got: Option<T>) where T: Clone
        requires
            self.wf(),
        ensures
            fetches(self@, *uuid, got),
    {
        self.inner.by_primary_key(uuid)
    }
}

} // verus!
