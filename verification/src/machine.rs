//! The collection as a state machine: what each request does to the state
//! and what it answers.
//!
//! The state holds the committed documents and, for a persisted
//! collection, the change that waits for the storage medium. A request to
//! change the documents is answered with the operations that persist the
//! change; the report of their outcome makes the change or drops it.

use crate::dir_based::file_name;
use crate::document::{
    clashes, delete_refusal, has_key, insert_refusal, put, record_of, update_refusal, without, Document,
};
use crate::error::Error;
use crate::file_plan::{delete_plan, insert_plan, update_plan, Plan};
use crate::storage::{ops_of, Op, StorageOp};
use vstd::prelude::*;

verus! {

/// Where a collection keeps its documents.
#[derive(Debug, Clone, Copy, PartialEq, Eq, Structural)]
pub enum CollectionBackend {
    /// In the index alone.
    InMemory,
    /// In a directory, one file per document.
    Dir,
    /// In a single file of slots of one size.
    File,
}

/// The documents and the slot size that a staged change leads to.
pub struct Next<T> {
    /// The documents once the change is made.
    pub docs: Seq<T>,
    /// The slot size once the change is made.
    pub slot: nat,
}

/// What the backend `backend` does to take `doc` into `docs`: the error
/// that refuses the insert, or the slot size and the operations that go
/// with it.
pub open spec fn insert_outcome<T: Document<T>>(
    backend: CollectionBackend,
    docs: Seq<T>,
    slot: nat,
    increment: nat,
    doc: T,
) -> Result<Plan, Error> {
    match insert_refusal(docs, doc) {
        Some(e) => Err(e),
        None => match backend {
            CollectionBackend::InMemory => Ok(Plan { slot, ops: Seq::empty() }),
            CollectionBackend::Dir => dir_write_plan(doc, slot),
            CollectionBackend::File => insert_plan(docs, slot, increment, doc),
        },
    }
}

/// What the backend `backend` does to put `doc` in the place of the
/// document of `docs` that has its key.
pub open spec fn update_outcome<T: Document<T>>(
    backend: CollectionBackend,
    docs: Seq<T>,
    slot: nat,
    increment: nat,
    doc: T,
) -> Result<Plan, Error> {
    if clashes(docs, doc) {
        Err(Error::ConstraintViolation)
    } else {
        match backend {
            CollectionBackend::InMemory => match update_refusal(docs, doc) {
                Some(e) => Err(e),
                None => Ok(Plan { slot, ops: Seq::empty() }),
            },
            CollectionBackend::Dir => match dir_write_plan(doc, slot) {
                Err(e) => Err(e),
                Ok(plan) => if has_key(docs, doc.key()) {
                    Ok(plan)
                } else {
                    Err(Error::KeyNotFound)
                },
            },
            CollectionBackend::File => update_plan(docs, slot, increment, doc),
        }
    }
}

/// What the backend `backend` does to drop the document of `docs` that has
/// the key `key`.
pub open spec fn delete_outcome<T: Document<T>>(
    backend: CollectionBackend,
    docs: Seq<T>,
    slot: nat,
    key: u128,
) -> Result<Plan, Error> {
    match delete_refusal(docs, key) {
        Some(e) => Err(e),
        None => match backend {
            CollectionBackend::InMemory => Ok(Plan { slot, ops: Seq::empty() }),
            CollectionBackend::Dir => Ok(Plan { slot, ops: seq![Op::RemoveFile { name: file_name(key) }] }),
            CollectionBackend::File => delete_plan(docs, slot, key),
        },
    }
}

/// What the directory backend does to keep `doc`: it writes the serialized
/// document into the file named by its key.
pub open spec fn dir_write_plan<T: Document<T>>(doc: T, slot: nat) -> Result<Plan, Error> {
    match record_of(doc) {
        None => Err(Error::SerializationFailure),
        Some(record) => Ok(Plan { slot, ops: seq![Op::WriteFile { name: file_name(doc.key()), bytes: record }] }),
    }
}

/// What a collection is at one moment.
pub struct State<T> {
    /// The storage strategy.
    pub backend: CollectionBackend,
    /// The committed documents, in the order of their positions.
    pub docs: Seq<T>,
    /// The slot size.
    pub slot: nat,
    /// The step by which the slot size grows.
    pub increment: nat,
    /// What the staged change leads to, where one is staged.
    pub staged: Option<Next<T>>,
}

/// What a request to change the documents leads to.
pub struct Step<T> {
    /// The state after the request.
    pub state: State<T>,
    /// The operations to carry out, or why the request was refused.
    pub answer: Result<Seq<Op>, Error>,
}

/// The step for a change that leads to the documents `target`, given what
/// the backend does for it.
///
/// A refused change leaves the documents as they were and stages nothing.
/// An accepted one answers with the backend's operations; in memory it is
/// made at once, otherwise it is staged and the documents stay as they
/// were.
pub open spec fn answered<T>(before: State<T>, outcome: Result<Plan, Error>, target: Seq<T>) -> Step<T> {
    match outcome {
        Err(e) => Step {
            state: State {
                backend: before.backend,
                docs: before.docs,
                slot: before.slot,
                increment: before.increment,
                staged: None,
            },
            answer: Err(e),
        },
        Ok(plan) => if before.backend == CollectionBackend::InMemory {
            Step {
                state: State {
                    backend: before.backend,
                    docs: target,
                    slot: before.slot,
                    increment: before.increment,
                    staged: None,
                },
                answer: Ok(plan.ops),
            }
        } else {
            Step {
                state: State {
                    backend: before.backend,
                    docs: before.docs,
                    slot: before.slot,
                    increment: before.increment,
                    staged: Some(Next { docs: target, slot: plan.slot }),
                },
                answer: Ok(plan.ops),
            }
        },
    }
}

/// The step for the insert of `doc`.
pub open spec fn insert_step<T: Document<T>>(before: State<T>, doc: T) -> Step<T> {
    answered(
        before,
        insert_outcome(before.backend, before.docs, before.slot, before.increment, doc),
        put(before.docs, doc),
    )
}

/// The step for the update to `doc`.
pub open spec fn update_step<T: Document<T>>(before: State<T>, doc: T) -> Step<T> {
    answered(
        before,
        update_outcome(before.backend, before.docs, before.slot, before.increment, doc),
        put(before.docs, doc),
    )
}

/// The step for the delete of the document with the key `key`.
pub open spec fn delete_step<T: Document<T>>(before: State<T>, key: u128) -> Step<T> {
    answered(before, delete_outcome(before.backend, before.docs, before.slot, key), without(before.docs, key))
}

/// The state after the report on the operations of the last change: where
/// they were carried out the staged change is made, with its slot size;
/// where they were not it is dropped.
pub open spec fn commit_step<T>(before: State<T>, written: bool) -> State<T> {
    match before.staged {
        Some(next) => if written {
            State {
                backend: before.backend,
                docs: next.docs,
                slot: next.slot,
                increment: before.increment,
                staged: None,
            }
        } else {
            State {
                backend: before.backend,
                docs: before.docs,
                slot: before.slot,
                increment: before.increment,
                staged: None,
            }
        },
        None => before,
    }
}

/// The reading of what a request answered.
pub open spec fn answer_of(answer: Result<Vec<StorageOp>, Error>) -> Result<Seq<Op>, Error> {
    match answer {
        Ok(ops) => Ok(ops_of(ops@)),
        Err(e) => Err(e),
    }
}

} // verus!
