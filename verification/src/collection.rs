//! The collection: documents under unique keys, behind one of three
//! storage strategies.
//!
//! A collection decides; it performs no input or output. A change to a
//! persisted collection is made in two steps. `insert`, `update` and
//! `delete` check the change and answer with the operations that bring the
//! storage medium in line with it; the change itself is staged. Once the
//! caller has carried the operations out, `commit` takes their outcome and
//! makes the staged change, or drops it. What a collection shows of its
//! documents is always the state that was last committed.

use crate::document::{fetches, finds, put, selects, without, Document};
use crate::error::Error;
use crate::file_plan::plan_delete;
use crate::index::DocumentIndex;
use crate::machine::{
    answer_of, commit_step, delete_step, insert_step, update_step, CollectionBackend, Next, State,
};
use crate::storage::{ops_of, Op, StorageOp};
use std::path::PathBuf;
use vstd::prelude::*;

verus! {

/// `std::path::PathBuf`; a collection carries it and never reads it.
#[verifier::external_type_specification]
#[verifier::external_body]
pub struct ExPathBuf(PathBuf);

/// The slot size of a new collection.
pub const INITIAL_BYTE_LENGTH: usize = 128;

/// The step by which the slot size of a collection grows.
pub const BYTE_LENGTH_INCREMENT: usize = 64;

/// A change that waits for the storage medium.
pub(crate) enum Change<T> {
    Put(T),
    Remove(u128),
}

/// A staged change and the slot size that comes with it.
pub(crate) struct Staged<T> {
    pub(crate) change: Change<T>,
    pub(crate) max_byte_length: usize,
}

/// A collection of documents under unique keys.
pub struct Collection<T> {
    pub(crate) path: Option<PathBuf>,
    pub(crate) documents: DocumentIndex<T>,
    pub(crate) backend: CollectionBackend,
    pub(crate) max_byte_length: usize,
    pub(crate) byte_length_increment: usize,
    pub(crate) staged: Option<Staged<T>>,
}

impl<T: Document<T>> View for Collection<T> {
    type V = Seq<T>;

    /// The documents of the collection, in the order of their positions.
    closed spec fn view(&self) -> Seq<T> {
        self.documents@
    }
}

impl<T: Document<T>> Collection<T> {
    /// The index is sound.
    pub closed spec fn wf(&self) -> bool {
        self.documents.wf()
    }

    /// Where the medium lies.
    pub closed spec fn spec_path(&self) -> Option<PathBuf> {
        self.path
    }

    /// The collection as a state of the machine.
    pub closed spec fn state(&self) -> State<T> {
        State {
            backend: self.backend,
            docs: self.documents@,
            slot: self.max_byte_length as nat,
            increment: self.byte_length_increment as nat,
            staged: match self.staged {
                None => None,
                Some(staged) => Some(
                    Next {
                        docs: match staged.change {
                            Change::Put(doc) => put(self.documents@, doc),
                            Change::Remove(key) => without(self.documents@, key),
                        },
                        slot: staged.max_byte_length as nat,
                    },
                ),
            },
        }
    }

    /// What the spec functions of a collection say of its parts.
    pub(crate) proof fn lemma_parts(&self)
        ensures
            self@ == self.documents@,
            self.state().docs == self@,
            self.state().slot == self.max_byte_length,
            self.state().increment == self.byte_length_increment,
            self.state().backend == self.backend,
            self.spec_path() == self.path,
            self.state().staged.is_none() == self.staged.is_none(),
            self.wf() == self.documents.wf(),
    {
    }

    /// The view of a collection is the documents of its state.
    pub proof fn lemma_view(&self)
        ensures
            self@ == self.state().docs,
    {
    }

    /// The keys of a sound collection are distinct.
    pub proof fn lemma_distinct(&self)
        requires
            self.wf(),
        ensures
            crate::document::distinct_keys(self@),
            crate::document::distinct_keys(self.state().docs),
    {
        self.documents.lemma_distinct();
    }

    /// Creates a collection without documents, with slots of 128 bytes that
    /// grow by 64.
    pub fn new(backend: CollectionBackend, path: Option<PathBuf>) -> (collection: Self)
        ensures
            collection.wf(),
            collection.spec_path() == path,
            collection.state() == (State {
                backend,
                docs: Seq::<T>::empty(),
                slot: INITIAL_BYTE_LENGTH as nat,
                increment: BYTE_LENGTH_INCREMENT as nat,
                staged: None,
            }),
    {
        Collection {
            path,
            documents: DocumentIndex::new(),
            backend,
            max_byte_length: INITIAL_BYTE_LENGTH,
            byte_length_increment: BYTE_LENGTH_INCREMENT,
            staged: None,
        }
    }

    /// Creates a collection without documents, with slots of
    /// `initial_slot_size` bytes that grow by `byte_length_increment`; what
    /// is not given is 128 and 64.
    pub fn with_slot_sizes(
        backend: CollectionBackend,
        path: Option<PathBuf>,
        byte_length_increment: Option<usize>,
        initial_slot_size: Option<usize>,
    ) -> (collection: Self)
        ensures
            collection.wf(),
            collection.spec_path() == path,
            collection.state() == (State {
                backend,
                docs: Seq::<T>::empty(),
                slot: match initial_slot_size {
                    Some(size) => size as nat,
                    None => INITIAL_BYTE_LENGTH as nat,
                },
                increment: match byte_length_increment {
                    Some(step) => step as nat,
                    None => BYTE_LENGTH_INCREMENT as nat,
                },
                staged: None,
            }),
    {
        Collection {
            path,
            documents: DocumentIndex::new(),
            backend,
            max_byte_length: match initial_slot_size {
                Some(size) => size,
                None => INITIAL_BYTE_LENGTH,
            },
            byte_length_increment: match byte_length_increment {
                Some(step) => step,
                None => BYTE_LENGTH_INCREMENT,
            },
            staged: None,
        }
    }

    /// Checks the insert of `new_doc` and answers with the operations that
    /// persist it.
    ///
    /// The insert is refused with `DuplicateKey` where the key is taken,
    /// else with `ConstraintViolation` where `new_doc` clashes with a
    /// document, else with what the backend refuses it for. The conflict
    /// rule is asked of `new_doc` against each stored document under
    /// another key.
    pub fn insert(&mut self, new_doc: T) -> (answer: Result<Vec<StorageOp>, Error>)
        requires
            old(self).wf(),
        ensures
            final(self).wf(),
            final(self).spec_path() == old(self).spec_path(),
            final(self).state() == insert_step(old(self).state(), new_doc).state,
            answer_of(answer) == insert_step(old(self).state(), new_doc).answer,
    {
        self.staged = None;
        if self.documents.get_index_of(new_doc.primary_key()).is_some() {
            return Err(Error::DuplicateKey);
        }
        if self.documents.clashes_with(&new_doc) {
            return Err(Error::ConstraintViolation);
        }
        match self.backend {
            CollectionBackend::InMemory => {
                self.documents.insert(new_doc);
                let ops: Vec<StorageOp> = Vec::new();
                assert(ops_of(ops@) =~= Seq::<Op>::empty());
                Ok(ops)
            },
            CollectionBackend::Dir => match self.write_to_dir(&new_doc) {
                Ok(ops) => {
                    self.staged = Some(
                        Staged { change: Change::Put(new_doc), max_byte_length: self.max_byte_length },
                    );
                    Ok(ops)
                },
                Err(e) => Err(e),
            },
            CollectionBackend::File => match self.write_new_document_to_file(&new_doc) {
                Ok(plan) => {
                    self.staged = Some(
                        Staged { change: Change::Put(new_doc), max_byte_length: plan.max_byte_length },
                    );
                    Ok(plan.ops)
                },
                Err(e) => Err(e),
            },
        }
    }

    /// Checks putting `updated_doc` in the place of the document that has
    /// its key and answers with the operations that persist it.
    ///
    /// The update is refused with `ConstraintViolation` where `updated_doc`
    /// clashes with a document under another key, else with what the
    /// backend refuses it for, `KeyNotFound` where no document has the key.
    pub fn update(&mut self, updated_doc: T) -> (answer: Result<Vec<StorageOp>, Error>)
        requires
            old(self).wf(),
        ensures
            final(self).wf(),
            final(self).spec_path() == old(self).spec_path(),
            final(self).state() == update_step(old(self).state(), updated_doc).state,
            answer_of(answer) == update_step(old(self).state(), updated_doc).answer,
    {
        self.staged = None;
        if self.documents.clashes_with(&updated_doc) {
            return Err(Error::ConstraintViolation);
        }
        match self.backend {
            CollectionBackend::InMemory => {
                if self.documents.get_index_of(updated_doc.primary_key()).is_none() {
                    return Err(Error::KeyNotFound);
                }
                self.documents.insert(updated_doc);
                let ops: Vec<StorageOp> = Vec::new();
                assert(ops_of(ops@) =~= Seq::<Op>::empty());
                Ok(ops)
            },
            CollectionBackend::Dir => match self.write_to_dir(&updated_doc) {
                Ok(ops) => {
                    if self.documents.get_index_of(updated_doc.primary_key()).is_none() {
                        return Err(Error::KeyNotFound);
                    }
                    self.staged = Some(
                        Staged { change: Change::Put(updated_doc), max_byte_length: self.max_byte_length },
                    );
                    Ok(ops)
                },
                Err(e) => Err(e),
            },
            CollectionBackend::File => match self.write_updated_document_to_file(&updated_doc) {
                Ok(plan) => {
                    self.staged = Some(
                        Staged { change: Change::Put(updated_doc), max_byte_length: plan.max_byte_length },
                    );
                    Ok(plan.ops)
                },
                Err(e) => Err(e),
            },
        }
    }

    /// Checks dropping the document with the key `pk` and answers with the
    /// operations that persist it.
    ///
    /// The delete is refused with `KeyNotFound` where no document has the
    /// key, else with what the backend refuses it for.
    pub fn delete(&mut self, pk: &u128) -> (answer: Result<Vec<StorageOp>, Error>)
        requires
            old(self).wf(),
        ensures
            final(self).wf(),
            final(self).spec_path() == old(self).spec_path(),
            final(self).state() == delete_step(old(self).state(), *pk).state,
            answer_of(answer) == delete_step(old(self).state(), *pk).answer,
    {
        self.staged = None;
        if self.documents.get_index_of(*pk).is_none() {
            return Err(Error::KeyNotFound);
        }
        match self.backend {
            CollectionBackend::InMemory => {
                self.documents.shift_remove(*pk);
                let ops: Vec<StorageOp> = Vec::new();
                assert(ops_of(ops@) =~= Seq::<Op>::empty());
                Ok(ops)
            },
            CollectionBackend::Dir => {
                let ops = self.remove_from_dir(pk);
                self.staged = Some(Staged { change: Change::Remove(*pk), max_byte_length: self.max_byte_length });
                Ok(ops)
            },
            CollectionBackend::File => match plan_delete(
                &self.documents,
                self.max_byte_length,
                *pk,
            ) {
                Ok(plan) => {
                    self.staged = Some(
                        Staged { change: Change::Remove(*pk), max_byte_length: plan.max_byte_length },
                    );
                    Ok(plan.ops)
                },
                Err(e) => Err(e),
            },
        }
    }

    /// Takes the outcome of the operations that the last change answered
    /// with: makes the staged change where they were carried out, drops it
    /// where they were not.
    pub fn commit(&mut self, written: bool) -> (done: Result<(), Error>)
        requires
            old(self).wf(),
        ensures
            final(self).wf(),
            final(self).spec_path() == old(self).spec_path(),
            final(self).state() == commit_step(old(self).state(), written),
            done == if written {
                Ok::<(), Error>(())
            } else {
                Err::<(), Error>(Error::IoFailure)
            },
    {
        let staged = self.staged.take();
        if !written {
            return Err(Error::IoFailure);
        }
        match staged {
            Some(staged) => {
                match staged.change {
                    Change::Put(doc) => {
                        self.documents.insert(doc);
                    },
                    Change::Remove(key) => {
                        self.documents.shift_remove(key);
                    },
                }
                self.max_byte_length = staged.max_byte_length;
            },
            None => {},
        }
        Ok(())
    }

    /// The number of documents.
    pub fn len(&self) -> (n: usize)
        ensures
            n == self@.len(),
    {
        self.documents.len()
    }

    /// The storage strategy.
    pub fn backend(&self) -> (backend: CollectionBackend)
        ensures
            backend == self.state().backend,
    {
        self.backend
    }

    /// Where the medium lies.
    pub fn path(&self) -> (path: &Option<PathBuf>)
        ensures
            *path == self.spec_path(),
    {
        &self.path
    }

    /// The slot size.
    pub fn max_byte_length(&self) -> (size: usize)
        ensures
            size == self.state().slot,
    {
        self.max_byte_length
    }

    /// The step by which the slot size grows.
    pub fn byte_length_increment(&self) -> (step: usize)
        ensures
            step == self.state().increment,
    {
        self.byte_length_increment
    }

    /// Whether a change waits for the report on its operations.
    pub fn has_staged(&self) -> (staged: bool)
        ensures
            staged == self.state().staged.is_some(),
    {
        self.staged.is_some()
    }

    /// Find all documents that meet the criteria: clones of them, in the
    /// order of their positions.
    pub fn filter<F: Fn(&T) -> bool>(&self, f: F) -> (picked: Vec<T>) where T: Clone
        requires
            forall|i: int| 0 <= i < self@.len() ==> call_requires(f, (&#[trigger] self@[i],)),
        ensures
            selects(f, self@, picked@),
    {
        assert forall|i: int| 0 <= i < self.documents@.len() implies call_requires(
            f,
            (&#[trigger] self.documents@[i],),
        ) by {
            assert(self@[i] == self.documents@[i]);
        }
        self.documents.filter(f)
    }

    /// Find the first document that satisfies the criteria.
    pub fn find<F: Fn(&T) -> bool>(&self, f: F) -> (found: Option<T>) where T: Clone
        requires
            forall|i: int| 0 <= i < self@.len() ==> call_requires(f, (&#[trigger] self@[i],)),
        ensures
            finds(f, self@, found),
    {
        assert forall|i: int| 0 <= i < self.documents@.len() implies call_requires(
            f,
            (&#[trigger] self.documents@[i],),
        ) by {
            assert(self@[i] == self.documents@[i]);
        }
        self.documents.find(f)
    }

    /// Get a document by its key.
    pub fn by_primary_key(&self, uuid: &u128) -> (got: Option<T>) where T: Clone
        requires
            self.wf(),
        ensures
            fetches(self@, *uuid, got),
    {
        self.documents.get(*uuid)
    }
}

} // verus!
