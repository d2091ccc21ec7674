//! What the single-file backend writes for each change to its documents.

use crate::document::{has_key, lemma_position_of, position_of, record_of, without, Document};
use crate::error::Error;
use crate::index::DocumentIndex;
use crate::layout::{
    can_grow, file_fits, fits_file, grown_slot_size, lemma_fits_fewer, offset_of_slot, pad_record, padded,
    slot_offset, slot_size_for,
};
use crate::storage::{ops_of, Op, StorageOp};
use vstd::prelude::*;

verus! {

/// The slot size that a change asks for and the operations that bring the
/// file in line with it.
pub struct FilePlan {
    /// The slot size once the change is made.
    pub max_byte_length: usize,
    /// The operations on the file, in the order to carry them out.
    pub ops: Vec<StorageOp>,
}

/// The mathematical reading of a `FilePlan`.
pub struct Plan {
    pub slot: nat,
    pub ops: Seq<Op>,
}

impl View for FilePlan {
    type V = Plan;

    open spec fn view(&self) -> Plan {
        Plan { slot: self.max_byte_length as nat, ops: ops_of(self.ops@) }
    }
}

/// Why `doc` cannot stand in a slot of size `slot`, if it cannot: it has no
/// serialized form, or that form is longer than the slot.
pub open spec fn record_verdict<T: Document<T>>(doc: T, slot: nat) -> Option<Error> {
    match record_of(doc) {
        None => Some(Error::SerializationFailure),
        Some(record) => if record.len() > slot {
            Some(Error::RecordTooLarge)
        } else {
            None
        },
    }
}

/// Why `docs` cannot be written out in slots of size `slot`, if they
/// cannot: the verdict on the first document that cannot stand in a slot.
pub open spec fn rewrite_verdict<T: Document<T>>(docs: Seq<T>, slot: nat) -> Option<Error>
    decreases docs.len(),
{
    if docs.len() == 0 {
        None
    } else {
        match rewrite_verdict(docs.drop_last(), slot) {
            Some(e) => Some(e),
            None => record_verdict(docs.last(), slot),
        }
    }
}

/// The write that puts `doc` into slot `position` of a file of slots of
/// size `slot`.
pub open spec fn slot_write<T: Document<T>>(doc: T, position: nat, slot: nat) -> Op {
    Op::WriteAt { offset: slot_offset(position, slot), bytes: padded(record_of(doc).unwrap(), slot) }
}

/// The operations that write `docs` out afresh in slots of size `slot`: the
/// file is cut to nothing, then each document goes into the slot of its
/// position.
pub open spec fn rewrite_ops<T: Document<T>>(docs: Seq<T>, slot: nat) -> Seq<Op> {
    seq![Op::Truncate] + Seq::new(docs.len(), |i: int| slot_write(docs[i], i as nat, slot))
}

/// The rewrite of `docs` in slots of size `slot`: refused where a slot
/// with its newline is longer than a buffer can be, where the slots do not
/// fit the file, or where a document cannot stand in its slot.
pub open spec fn rewrite_plan<T: Document<T>>(docs: Seq<T>, slot: nat) -> Result<Seq<Op>, Error> {
    if slot >= usize::MAX || !fits_file(docs.len(), slot) {
        Err(Error::RecordTooLarge)
    } else {
        match rewrite_verdict(docs, slot) {
            Some(e) => Err(e),
            None => Ok(rewrite_ops(docs, slot)),
        }
    }
}

/// What the file backend does to take `doc` in behind `docs`.
///
/// The slot size grows to hold the record where it must; where it grows,
/// every document is written out afresh in the wider slots first. The new
/// document then goes into the slot behind the last one.
pub open spec fn insert_plan<T: Document<T>>(docs: Seq<T>, slot: nat, increment: nat, doc: T) -> Result<
    Plan,
    Error,
> {
    match record_of(doc) {
        None => Err(Error::SerializationFailure),
        Some(record) => {
            let size = grown_slot_size(slot, record.len(), increment);
            if !can_grow(slot, record.len(), increment) || !fits_file(docs.len() + 1, size) {
                Err(Error::RecordTooLarge)
            } else if record.len() > slot {
                match rewrite_verdict(docs, size) {
                    Some(e) => Err(e),
                    None => Ok(
                        Plan { slot: size, ops: rewrite_ops(docs, size).push(slot_write(doc, docs.len(), size)) },
                    ),
                }
            } else {
                Ok(Plan { slot: size, ops: seq![slot_write(doc, docs.len(), size)] })
            }
        },
    }
}

/// What the file backend does to put `doc` in the place of the document
/// that has its key.
///
/// The slot size grows as for an insert, with the same rewrite of every
/// document as it stood; the new form then goes into the slot of its key.
pub open spec fn update_plan<T: Document<T>>(docs: Seq<T>, slot: nat, increment: nat, doc: T) -> Result<
    Plan,
    Error,
> {
    match record_of(doc) {
        None => Err(Error::SerializationFailure),
        Some(record) => {
            let size = grown_slot_size(slot, record.len(), increment);
            let write = slot_write(doc, position_of(docs, doc.key()) as nat, size);
            if !can_grow(slot, record.len(), increment) || !fits_file(docs.len(), size) {
                Err(Error::RecordTooLarge)
            } else if record.len() > slot && rewrite_verdict(docs, size).is_some() {
                Err(rewrite_verdict(docs, size).unwrap())
            } else if !has_key(docs, doc.key()) {
                Err(Error::KeyNotFound)
            } else if record.len() > slot {
                Ok(Plan { slot: size, ops: rewrite_ops(docs, size).push(write) })
            } else {
                Ok(Plan { slot: size, ops: seq![write] })
            }
        },
    }
}

/// What the file backend does to drop the document with the key `key`: the
/// documents that stay are written out afresh, each in the slot of its new
/// position.
pub open spec fn delete_plan<T: Document<T>>(docs: Seq<T>, slot: nat, key: u128) -> Result<Plan, Error> {
    if !has_key(docs, key) {
        Err(Error::KeyNotFound)
    } else {
        match rewrite_plan(without(docs, key), slot) {
            Err(e) => Err(e),
            Ok(ops) => Ok(Plan { slot, ops }),
        }
    }
}

/// The verdict on a part of the documents from the front, once it is a
/// refusal, is the verdict on all of them.
pub proof fn lemma_rewrite_verdict_prefix<T: Document<T>>(docs: Seq<T>, slot: nat, n: int)
    requires
        0 <= n <= docs.len(),
        rewrite_verdict(docs.take(n), slot).is_some(),
    ensures
        rewrite_verdict(docs, slot) == rewrite_verdict(docs.take(n), slot),
    decreases docs.len(),
{
    if n == docs.len() {
        assert(docs.take(n) =~= docs);
    } else {
        assert(docs.drop_last().take(n) =~= docs.take(n));
        lemma_rewrite_verdict_prefix(docs.drop_last(), slot, n);
    }
}

/// Documents can be written out in slots of a size exactly when each of
/// them can stand in a slot of that size.
pub proof fn lemma_rewrite_verdict_none<T: Document<T>>(docs: Seq<T>, slot: nat)
    ensures
        rewrite_verdict(docs, slot).is_none() <==> forall|i: int|
            0 <= i < docs.len() ==> record_verdict(#[trigger] docs[i], slot).is_none(),
    decreases docs.len(),
{
    if docs.len() > 0 {
        lemma_rewrite_verdict_none(docs.drop_last(), slot);
        let front = docs.drop_last();
        if rewrite_verdict(docs, slot).is_none() {
            assert forall|i: int| 0 <= i < docs.len() implies record_verdict(#[trigger] docs[i], slot).is_none() by {
                if i < front.len() {
                    assert(front[i] == docs[i]);
                }
            }
        }
        if forall|i: int| 0 <= i < docs.len() ==> record_verdict(#[trigger] docs[i], slot).is_none() {
            assert forall|i: int| 0 <= i < front.len() implies record_verdict(#[trigger] front[i], slot).is_none() by {
                assert(front[i] == docs[i]);
            }
            assert(record_verdict(docs[docs.len() - 1], slot).is_none());
        }
    }
}

/// The operations that write the documents of `index` out afresh in slots
/// of size `slot`, the document at position `skip` left out where one is
/// given.
pub fn plan_rewrite<T: Document<T>>(index: &DocumentIndex<T>, skip: Option<usize>, slot: usize) -> (plan: Result<
    Vec<StorageOp>,
    Error,
>)
    ensures
        match plan {
            Ok(ops) => rewrite_plan(kept(index@, skip), slot as nat) == Ok::<Seq<Op>, Error>(ops_of(ops@)),
            Err(e) => rewrite_plan(kept(index@, skip), slot as nat) == Err::<Seq<Op>, Error>(e),
        },
{
    let ghost docs = kept(index@, skip);
    let gap: Option<usize> = match skip {
        Some(p) => if p < index.len() {
            Some(p)
        } else {
            None
        },
        None => None,
    };
    assert(docs == kept(index@, gap));
    let count: usize = match gap {
        Some(_) => index.len() - 1,
        None => index.len(),
    };
    if slot == usize::MAX || !file_fits(count, false, slot) {
        return Err(Error::RecordTooLarge);
    }
    let mut ops: Vec<StorageOp> = Vec::new();
    ops.push(StorageOp::Truncate);
    let mut j: usize = 0;
    assert(docs.take(0) =~= Seq::<T>::empty());
    while j < count
        invariant
            slot < usize::MAX,
            gap.is_some() ==> gap.unwrap() < index@.len(),
            docs == kept(index@, gap),
            docs == kept(index@, skip),
            count == docs.len(),
            fits_file(count as nat, slot as nat),
            j <= count,
            rewrite_verdict(docs.take(j as int), slot as nat).is_none(),
            ops@.len() == j + 1,
            ops@[0]@ == Op::Truncate,
            forall|k: int|
                1 <= k <= j ==> (#[trigger] ops@[k])@ == slot_write(docs[k - 1], (k - 1) as nat, slot as nat),
        decreases count - j,
    {
        let source: usize = match gap {
            Some(p) => if j < p {
                j
            } else {
                j + 1
            },
            None => j,
        };
        let doc = match index.get_index(source) {
            Some(doc) => doc,
            None => {
                assert(false);
                return Err(Error::KeyNotFound);
            },
        };
        assert(*doc == docs[j as int]);
        proof {
            assert(docs.take(j + 1).drop_last() =~= docs.take(j as int));
            assert(docs.take(j + 1).last() == docs[j as int]);
        }
        let record = match doc.to_json() {
            Some(record) => record,
            None => {
                proof {
                    lemma_rewrite_verdict_prefix(docs, slot as nat, j + 1);
                }
                return Err(Error::SerializationFailure);
            },
        };
        if record.len() > slot {
            proof {
                lemma_rewrite_verdict_prefix(docs, slot as nat, j + 1);
            }
            return Err(Error::RecordTooLarge);
        }
        proof {
            lemma_fits_fewer(j as nat, count as nat, slot as nat);
        }
        let offset = match offset_of_slot(j as u64, slot) {
            Some(offset) => offset,
            None => {
                assert(false);
                return Err(Error::RecordTooLarge);
            },
        };
        let bytes = pad_record(record.as_slice(), slot);
        let ghost before = ops@;
        ops.push(StorageOp::WriteAt { offset, bytes });
        assert(ops@[j + 1]@ == slot_write(docs[j as int], j as nat, slot as nat));
        assert forall|k: int| 1 <= k <= j + 1 implies (#[trigger] ops@[k])@ == slot_write(
            docs[k - 1],
            (k - 1) as nat,
            slot as nat,
        ) by {
            if k <= j {
                assert(ops@[k] == before[k]);
            }
        }
        j = j + 1;
    }
    proof {
        assert(docs.take(j as int) =~= docs);
        let wanted = rewrite_ops(docs, slot as nat);
        assert(ops_of(ops@).len() == wanted.len());
        assert forall|k: int| 0 <= k < wanted.len() implies ops_of(ops@)[k] == wanted[k] by {
            if k >= 1 {
                assert(ops@[k]@ == slot_write(docs[k - 1], (k - 1) as nat, slot as nat));
            }
        }
        assert(ops_of(ops@) =~= wanted);
    }
    Ok(ops)
}

/// `docs` without the document at position `skip`, where one is given and
/// `docs` has that position.
pub open spec fn kept<T>(docs: Seq<T>, skip: Option<usize>) -> Seq<T> {
    match skip {
        Some(p) => if p < docs.len() {
            docs.remove(p as int)
        } else {
            docs
        },
        None => docs,
    }
}

/// The readings of a list of operations with one more behind them.
pub proof fn lemma_ops_of_push(ops: Seq<StorageOp>, op: StorageOp)
    ensures
        ops_of(ops.push(op)) == ops_of(ops).push(op@),
{
    assert(ops_of(ops.push(op)) =~= ops_of(ops).push(op@));
}

/// Plans the insert of `doc` behind the documents of `index`, in a file of
/// slots of size `slot` that grow by `increment`.
pub fn plan_insert<T: Document<T>>(index: &DocumentIndex<T>, slot: usize, increment: usize, doc: &T) -> (plan:
    Result<FilePlan, Error>)
    ensures
        match plan {
            Ok(p) => insert_plan(index@, slot as nat, increment as nat, *doc) == Ok::<Plan, Error>(p@) && slot
                <= p.max_byte_length,
            Err(e) => insert_plan(index@, slot as nat, increment as nat, *doc) == Err::<Plan, Error>(e),
        },
{
    let record = match doc.to_json() {
        Some(record) => record,
        None => {
            return Err(Error::SerializationFailure);
        },
    };
    let size = match slot_size_for(slot, record.len(), increment) {
        Some(size) => size,
        None => {
            return Err(Error::RecordTooLarge);
        },
    };
    let count = index.len();
    if !file_fits(count, true, size) {
        return Err(Error::RecordTooLarge);
    }
    proof {
        lemma_fits_fewer(count as nat, (count + 1) as nat, size as nat);
    }
    let mut ops: Vec<StorageOp> = if record.len() > slot {
        match plan_rewrite(index, None, size) {
            Ok(ops) => ops,
            Err(e) => {
                return Err(e);
            },
        }
    } else {
        Vec::new()
    };
    let offset = match offset_of_slot(count as u64, size) {
        Some(offset) => offset,
        None => {
            assert(false);
            return Err(Error::RecordTooLarge);
        },
    };
    let bytes = pad_record(record.as_slice(), size);
    let ghost before = ops@;
    ops.push(StorageOp::WriteAt { offset, bytes });
    let plan = FilePlan { max_byte_length: size, ops };
    proof {
        let write = slot_write(*doc, count as nat, size as nat);
        lemma_ops_of_push(before, StorageOp::WriteAt { offset, bytes });
        if record.len() > slot {
            assert(plan@.ops =~= rewrite_ops(index@, size as nat).push(write));
        } else {
            assert(plan@.ops =~= seq![write]);
        }
    }
    Ok(plan)
}

/// Plans putting `doc` in the place of the document of `index` that has
/// its key, in a file of slots of size `slot` that grow by `increment`.
pub fn plan_update<T: Document<T>>(index: &DocumentIndex<T>, slot: usize, increment: usize, doc: &T) -> (plan:
    Result<FilePlan, Error>)
    requires
        index.wf(),
    ensures
        match plan {
            Ok(p) => update_plan(index@, slot as nat, increment as nat, *doc) == Ok::<Plan, Error>(p@) && slot
                <= p.max_byte_length,
            Err(e) => update_plan(index@, slot as nat, increment as nat, *doc) == Err::<Plan, Error>(e),
        },
{
    let record = match doc.to_json() {
        Some(record) => record,
        None => {
            return Err(Error::SerializationFailure);
        },
    };
    let size = match slot_size_for(slot, record.len(), increment) {
        Some(size) => size,
        None => {
            return Err(Error::RecordTooLarge);
        },
    };
    let count = index.len();
    if !file_fits(count, false, size) {
        return Err(Error::RecordTooLarge);
    }
    let mut ops: Vec<StorageOp> = if record.len() > slot {
        match plan_rewrite(index, None, size) {
            Ok(ops) => ops,
            Err(e) => {
                return Err(e);
            },
        }
    } else {
        Vec::new()
    };
    let position = match index.get_index_of(doc.primary_key()) {
        Some(position) => position,
        None => {
            return Err(Error::KeyNotFound);
        },
    };
    proof {
        index.lemma_distinct();
        lemma_position_of(index@, doc.key(), position as int);
        lemma_fits_fewer(position as nat, count as nat, size as nat);
    }
    let offset = match offset_of_slot(position as u64, size) {
        Some(offset) => offset,
        None => {
            assert(false);
            return Err(Error::RecordTooLarge);
        },
    };
    let bytes = pad_record(record.as_slice(), size);
    let ghost before = ops@;
    ops.push(StorageOp::WriteAt { offset, bytes });
    let plan = FilePlan { max_byte_length: size, ops };
    proof {
        let write = slot_write(*doc, position as nat, size as nat);
        lemma_ops_of_push(before, StorageOp::WriteAt { offset, bytes });
        if record.len() > slot {
            assert(plan@.ops =~= rewrite_ops(index@, size as nat).push(write));
        } else {
            assert(plan@.ops =~= seq![write]);
        }
    }
    Ok(plan)
}

/// Plans dropping the document of `index` that has the key `key`, in a
/// file of slots of size `slot`.
pub fn plan_delete<T: Document<T>>(index: &DocumentIndex<T>, slot: usize, key: u128) -> (plan: Result<
    FilePlan,
    Error,
>)
    requires
        index.wf(),
    ensures
        match plan {
            Ok(p) => delete_plan(index@, slot as nat, key) == Ok::<Plan, Error>(p@) && p.max_byte_length == slot,
            Err(e) => delete_plan(index@, slot as nat, key) == Err::<Plan, Error>(e),
        },
{
    let position = match index.get_index_of(key) {
        Some(position) => position,
        None => {
            return Err(Error::KeyNotFound);
        },
    };
    proof {
        index.lemma_distinct();
        lemma_position_of(index@, key, position as int);
    }
    match plan_rewrite(index, Some(position), slot) {
        Ok(ops) => Ok(FilePlan { max_byte_length: slot, ops }),
        Err(e) => Err(e),
    }
}

} // verus!
