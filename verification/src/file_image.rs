//! What the record file holds, and that the operations of each change keep
//! it in line with the documents.

use crate::document::{record_of, Document};
use crate::file_plan::{record_verdict, rewrite_ops, slot_write};
use crate::layout::{padded, slot_offset};
use crate::storage::{file_after, file_after_all, Op};
use vstd::prelude::*;

verus! {

/// The record file of `docs` in slots of size `slot`: the slots of the
/// documents, one behind the other, in the order of the documents.
pub open spec fn file_image<T: Document<T>>(docs: Seq<T>, slot: nat) -> Seq<u8>
    decreases docs.len(),
{
    if docs.len() == 0 {
        Seq::empty()
    } else {
        file_image(docs.drop_last(), slot) + padded(record_of(docs.last()).unwrap(), slot)
    }
}

/// Each document of `docs` has a serialized form that fits a slot of size
/// `slot`.
pub open spec fn all_fit<T: Document<T>>(docs: Seq<T>, slot: nat) -> bool {
    forall|i: int| 0 <= i < docs.len() ==> record_verdict(#[trigger] docs[i], slot).is_none()
}

/// Slots start one slot width apart.
pub proof fn lemma_offset_steps(position: nat, slot: nat)
    ensures
        slot_offset(position + 1, slot) == slot_offset(position, slot) + slot + 1,
        slot_offset(0, slot) == 0,
{
    assert((position + 1) * (slot + 1) == position * (slot + 1) + slot + 1) by (nonlinear_arith);
}

/// A slot further on starts further on.
pub proof fn lemma_offset_monotone(fewer: nat, more: nat, slot: nat)
    requires
        fewer <= more,
    ensures
        slot_offset(fewer, slot) <= slot_offset(more, slot),
{
    assert(fewer * (slot + 1) <= more * (slot + 1)) by (nonlinear_arith)
        requires
            fewer <= more,
    ;
}

/// Documents that fit their slots fit them still when some are left off at
/// the end.
pub proof fn lemma_all_fit_front<T: Document<T>>(docs: Seq<T>, slot: nat)
    requires
        all_fit(docs, slot),
        docs.len() > 0,
    ensures
        all_fit(docs.drop_last(), slot),
        record_verdict(docs.last(), slot).is_none(),
{
    let front = docs.drop_last();
    assert forall|i: int| 0 <= i < front.len() implies record_verdict(#[trigger] front[i], slot).is_none() by {
        assert(front[i] == docs[i]);
    }
    assert(docs.last() == docs[docs.len() - 1]);
}

/// The record file is as long as its slots together.
pub proof fn lemma_image_len<T: Document<T>>(docs: Seq<T>, slot: nat)
    requires
        all_fit(docs, slot),
    ensures
        file_image(docs, slot).len() == slot_offset(docs.len(), slot),
    decreases docs.len(),
{
    if docs.len() == 0 {
        lemma_offset_steps(0, slot);
    } else {
        lemma_all_fit_front(docs, slot);
        lemma_image_len(docs.drop_last(), slot);
        lemma_offset_steps((docs.len() - 1) as nat, slot);
    }
}

/// Slot `i` of the record file holds the padded record of document `i`,
/// byte for byte.
pub proof fn lemma_image_slot<T: Document<T>>(docs: Seq<T>, slot: nat, i: int)
    requires
        all_fit(docs, slot),
        0 <= i < docs.len(),
    ensures
        slot_offset((i + 1) as nat, slot) <= file_image(docs, slot).len(),
        file_image(docs, slot).subrange(
            slot_offset(i as nat, slot) as int,
            slot_offset((i + 1) as nat, slot) as int,
        ) == padded(record_of(docs[i]).unwrap(), slot),
    decreases docs.len(),
{
    let front = docs.drop_last();
    let last = docs.len() - 1;
    let image = file_image(docs, slot);
    let from = slot_offset(i as nat, slot) as int;
    let to = slot_offset((i + 1) as nat, slot) as int;
    lemma_all_fit_front(docs, slot);
    lemma_image_len(front, slot);
    lemma_image_len(docs, slot);
    lemma_offset_steps(i as nat, slot);
    lemma_offset_monotone((i + 1) as nat, docs.len(), slot);
    if i == last {
        assert(image.subrange(from, to) =~= padded(record_of(docs[i]).unwrap(), slot));
    } else {
        lemma_image_slot(front, slot, i);
        lemma_offset_monotone((i + 1) as nat, front.len(), slot);
        assert(front[i] == docs[i]);
        assert(image.subrange(from, to) =~= file_image(front, slot).subrange(from, to));
    }
}

/// A write at the end of the file appends its bytes.
pub proof fn lemma_write_at_end(file: Seq<u8>, bytes: Seq<u8>)
    ensures
        file_after(file, Op::WriteAt { offset: file.len(), bytes }) == file + bytes,
{
    assert(file_after(file, Op::WriteAt { offset: file.len(), bytes }) =~= file + bytes);
}

/// A write that ends within the front part of a file leaves what lies
/// behind that part as it is.
pub proof fn lemma_write_in_front(front: Seq<u8>, back: Seq<u8>, offset: nat, bytes: Seq<u8>)
    requires
        offset + bytes.len() <= front.len(),
    ensures
        file_after(front + back, Op::WriteAt { offset, bytes }) == file_after(
            front,
            Op::WriteAt { offset, bytes },
        ) + back,
{
    assert(file_after(front + back, Op::WriteAt { offset, bytes }) =~= file_after(
        front,
        Op::WriteAt { offset, bytes },
    ) + back);
}

/// The rewrite leaves the record file of the documents, whatever the file
/// held before.
pub proof fn lemma_rewrite_gives_image<T: Document<T>>(file: Seq<u8>, docs: Seq<T>, slot: nat)
    requires
        all_fit(docs, slot),
    ensures
        file_after_all(file, rewrite_ops(docs, slot)) == file_image(docs, slot),
    decreases docs.len(),
{
    let ops = rewrite_ops(docs, slot);
    if docs.len() == 0 {
        assert(ops =~= seq![Op::Truncate]);
        assert(ops.drop_last() =~= Seq::<Op>::empty());
        assert(file_after_all(file, ops.drop_last()) == file);
        assert(ops.last() == Op::Truncate);
        assert(file_after_all(file, ops) =~= file_image(docs, slot));
    } else {
        let front = docs.drop_last();
        lemma_all_fit_front(docs, slot);
        lemma_rewrite_gives_image(file, front, slot);
        lemma_image_len(front, slot);
        assert(ops.drop_last() =~= rewrite_ops(front, slot));
        assert(ops.last() == slot_write(docs.last(), front.len(), slot));
        lemma_write_at_end(file_image(front, slot), padded(record_of(docs.last()).unwrap(), slot));
    }
}

/// A write into the slot behind the last one leaves the record file of the
/// documents with the new one behind them.
pub proof fn lemma_append_gives_image<T: Document<T>>(docs: Seq<T>, slot: nat, doc: T)
    requires
        all_fit(docs, slot),
    ensures
        file_after(file_image(docs, slot), slot_write(doc, docs.len(), slot)) == file_image(docs.push(doc), slot),
{
    lemma_image_len(docs, slot);
    lemma_write_at_end(file_image(docs, slot), padded(record_of(doc).unwrap(), slot));
    assert(docs.push(doc).drop_last() =~= docs);
}

/// A write into the slot of a document leaves the record file of the
/// documents with the new one in its place.
pub proof fn lemma_overwrite_gives_image<T: Document<T>>(docs: Seq<T>, slot: nat, position: int, doc: T)
    requires
        all_fit(docs, slot),
        record_verdict(doc, slot).is_none(),
        0 <= position < docs.len(),
    ensures
        file_after(file_image(docs, slot), slot_write(doc, position as nat, slot)) == file_image(
            docs.update(position, doc),
            slot,
        ),
    decreases docs.len(),
{
    let front = docs.drop_last();
    let last = docs.len() - 1;
    let bytes = padded(record_of(doc).unwrap(), slot);
    lemma_all_fit_front(docs, slot);
    lemma_image_len(front, slot);
    lemma_offset_steps(position as nat, slot);
    if position == last {
        assert(docs.update(position, doc).drop_last() =~= front);
        let tail = padded(record_of(docs.last()).unwrap(), slot);
        assert(file_after(file_image(front, slot) + tail, Op::WriteAt { offset: file_image(front, slot).len(), bytes })
            =~= file_image(front, slot) + bytes);
    } else {
        lemma_overwrite_gives_image(front, slot, position, doc);
        lemma_offset_monotone((position + 1) as nat, front.len(), slot);
        lemma_write_in_front(
            file_image(front, slot),
            padded(record_of(docs.last()).unwrap(), slot),
            slot_offset(position as nat, slot),
            bytes,
        );
        assert(docs.update(position, doc).drop_last() =~= front.update(position, doc));
        assert(docs.update(position, doc).last() == docs.last());
    }
}

/// What is carried out first and what is carried out then is carried out
/// in all.
pub proof fn lemma_after_all_push(file: Seq<u8>, ops: Seq<Op>, op: Op)
    ensures
        file_after_all(file, ops.push(op)) == file_after(file_after_all(file, ops), op),
{
    assert(ops.push(op).drop_last() =~= ops);
}

/// One operation alone.
pub proof fn lemma_after_one(file: Seq<u8>, op: Op)
    ensures
        file_after_all(file, seq![op]) == file_after(file, op),
{
    assert(seq![op].drop_last() =~= Seq::<Op>::empty());
    assert(file_after_all(file, Seq::<Op>::empty()) == file);
}

} // verus!
