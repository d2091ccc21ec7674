//! The single-file backend of a collection: what it reads and what it
//! writes.

use crate::collection::Collection;
use crate::document::Document;
use crate::error::Error;
use crate::file_load::{load_records, loaded};
use crate::file_plan::{
    insert_plan, plan_insert, plan_rewrite, plan_update, rewrite_plan, update_plan, FilePlan, Plan,
};
use crate::machine::State;
use crate::storage::{ops_of, Op, StorageOp};
use vstd::prelude::*;

verus! {

impl<T: Document<T>> Collection<T> {
    /// Reads the record file, whose bytes are `bytes`, into the collection.
    /// A collection without a path reads nothing.
    pub fn load_structs_from_file(&mut self, bytes: &[u8])
        requires
            old(self).wf(),
        ensures
            final(self).wf(),
            final(self).spec_path() == old(self).spec_path(),
            final(self).state() == (State {
                docs: if old(self).spec_path().is_none() {
                    old(self)@
                } else {
                    loaded(old(self)@, bytes@, 0)
                },
                staged: None,
                ..old(self).state()
            }),
    {
        proof {
            old(self).lemma_parts();
        }
        self.staged = None;
        if self.path.is_some() {
            load_records(&mut self.documents, bytes);
        }
        proof {
            self.lemma_parts();
        }
    }

    /// The slot size and the operations that put `doc` into the file behind
    /// the documents of the collection.
    pub fn write_new_document_to_file(&self, doc: &T) -> (plan: Result<FilePlan, Error>)
        ensures
            match plan {
                Ok(p) => insert_plan(self@, self.state().slot, self.state().increment, *doc) == Ok::<Plan, Error>(p@)
                    && self.state().slot <= p.max_byte_length,
                Err(e) => insert_plan(self@, self.state().slot, self.state().increment, *doc) == Err::<Plan, Error>(e),
            },
    {
        proof {
            self.lemma_parts();
        }
        plan_insert(&self.documents, self.max_byte_length, self.byte_length_increment, doc)
    }

    /// The slot size and the operations that put `doc` into the slot of the
    /// document that has its key.
    pub fn write_updated_document_to_file(&self, doc: &T) -> (plan: Result<FilePlan, Error>)
        requires
            self.wf(),
        ensures
            match plan {
                Ok(p) => update_plan(self@, self.state().slot, self.state().increment, *doc) == Ok::<Plan, Error>(p@)
                    && self.state().slot <= p.max_byte_length,
                Err(e) => update_plan(self@, self.state().slot, self.state().increment, *doc) == Err::<Plan, Error>(e),
            },
    {
        proof {
            self.lemma_parts();
        }
        plan_update(&self.documents, self.max_byte_length, self.byte_length_increment, doc)
    }

    /// The operations that write the documents out afresh in slots of size
    /// `max_byte_length`.
    pub fn resize_db(&self, max_byte_length: usize) -> (answer: Result<Vec<StorageOp>, Error>)
        ensures
            match answer {
                Ok(ops) => rewrite_plan(self@, max_byte_length as nat) == Ok::<Seq<Op>, Error>(ops_of(ops@)),
                Err(e) => rewrite_plan(self@, max_byte_length as nat) == Err::<Seq<Op>, Error>(e),
            },
    {
        proof {
            self.lemma_parts();
        }
        plan_rewrite(&self.documents, None, max_byte_length)
    }

    /// The operations that write the documents out afresh in slots of the
    /// size that the collection has.
    pub fn rewrite_file(&self) -> (answer: Result<Vec<StorageOp>, Error>)
        ensures
            match answer {
                Ok(ops) => rewrite_plan(self@, self.state().slot) == Ok::<Seq<Op>, Error>(ops_of(ops@)),
                Err(e) => rewrite_plan(self@, self.state().slot) == Err::<Seq<Op>, Error>(e),
            },
    {
        proof {
            self.lemma_parts();
        }
        plan_rewrite(&self.documents, None, self.max_byte_length)
    }
}

} // verus!
