//! What holds of the record file of every file backed collection.

use crate::document::{
    distinct_keys, has_key, lemma_position_of, lookup, position_of, put, record_of, without, Document,
};
use crate::file_image::{
    all_fit, file_image, lemma_after_all_push, lemma_after_one, lemma_append_gives_image, lemma_image_len,
    lemma_image_slot,
    lemma_overwrite_gives_image, lemma_rewrite_gives_image,
};
use crate::file_plan::{lemma_rewrite_verdict_none, record_verdict, rewrite_ops, slot_write};
use crate::laws::{law_delete_compacts, law_put_keeps_others};
use crate::layout::{
    grown_slot_size, is_multiple_of, lemma_grown_is_smallest_multiple, padded, slot_offset,
};
use crate::machine::{commit_step, delete_step, insert_step, update_step, CollectionBackend, State};
use crate::storage::file_after_all;
use vstd::prelude::*;

verus! {

/// The file is in line with the collection: it holds the slots of the
/// committed documents, in their order and nothing else, each document in
/// a slot of the collection's slot size.
pub open spec fn in_line<T: Document<T>>(state: State<T>, file: Seq<u8>) -> bool {
    all_fit(state.docs, state.slot) && file == file_image(state.docs, state.slot)
}

/// The bytes of slot `i` of a file of slots of size `slot`.
pub open spec fn slot_bytes(file: Seq<u8>, i: int, slot: nat) -> Seq<u8> {
    file.subrange(slot_offset(i as nat, slot) as int, slot_offset((i + 1) as nat, slot) as int)
}

proof fn lemma_all_fit_put<T: Document<T>>(docs: Seq<T>, slot: nat, doc: T)
    requires
        all_fit(docs, slot),
        record_verdict(doc, slot).is_none(),
    ensures
        all_fit(put(docs, doc), slot),
{
    let after = put(docs, doc);
    assert forall|i: int| 0 <= i < after.len() implies record_verdict(#[trigger] after[i], slot).is_none() by {
        if after[i] != doc {
            assert(after[i] == docs[i]);
        }
    }
}

/// File consistency, over an insert: where the file is in line with the
/// collection before, the operations of an accepted insert leave it in
/// line with the collection as the commit leaves it.
pub proof fn law_insert_keeps_file_in_line<T: Document<T>>(state: State<T>, file: Seq<u8>, doc: T)
    requires
        state.backend == CollectionBackend::File,
        in_line(state, file),
        insert_step(state, doc).answer.is_ok(),
    ensures
        in_line(
            commit_step(insert_step(state, doc).state, true),
            file_after_all(file, insert_step(state, doc).answer.unwrap()),
        ),
{
    let docs = state.docs;
    let record = record_of(doc).unwrap();
    let size = grown_slot_size(state.slot, record.len(), state.increment);
    let ops = insert_step(state, doc).answer.unwrap();
    let write = slot_write(doc, docs.len(), size);
    assert(!has_key(docs, doc.key()));
    assert(put(docs, doc) == docs.push(doc));
    if record.len() > state.slot {
        lemma_grown_is_smallest_multiple(state.slot, record.len(), state.increment);
        lemma_rewrite_verdict_none(docs, size);
        assert(ops == rewrite_ops(docs, size).push(write));
        lemma_after_all_push(file, rewrite_ops(docs, size), write);
        lemma_rewrite_gives_image(file, docs, size);
    } else {
        assert(ops == seq![write]);
        lemma_after_one(file, write);
    }
    lemma_append_gives_image(docs, size, doc);
    lemma_all_fit_put(docs, size, doc);
}

/// File consistency, over an update.
pub proof fn law_update_keeps_file_in_line<T: Document<T>>(state: State<T>, file: Seq<u8>, doc: T)
    requires
        state.backend == CollectionBackend::File,
        in_line(state, file),
        update_step(state, doc).answer.is_ok(),
    ensures
        in_line(
            commit_step(update_step(state, doc).state, true),
            file_after_all(file, update_step(state, doc).answer.unwrap()),
        ),
{
    let docs = state.docs;
    let record = record_of(doc).unwrap();
    let size = grown_slot_size(state.slot, record.len(), state.increment);
    let ops = update_step(state, doc).answer.unwrap();
    let position = position_of(docs, doc.key());
    let write = slot_write(doc, position as nat, size);
    assert(has_key(docs, doc.key()));
    assert(0 <= position < docs.len());
    assert(put(docs, doc) == docs.update(position, doc));
    if record.len() > state.slot {
        lemma_grown_is_smallest_multiple(state.slot, record.len(), state.increment);
        lemma_rewrite_verdict_none(docs, size);
        assert(ops == rewrite_ops(docs, size).push(write));
        lemma_after_all_push(file, rewrite_ops(docs, size), write);
        lemma_rewrite_gives_image(file, docs, size);
    } else {
        assert(ops == seq![write]);
        lemma_after_one(file, write);
    }
    lemma_overwrite_gives_image(docs, size, position, doc);
    lemma_all_fit_put(docs, size, doc);
}

/// File consistency, over a delete: the operations of an accepted delete
/// leave the file in line with the collection as the commit leaves it,
/// whatever the file held before.
pub proof fn law_delete_keeps_file_in_line<T: Document<T>>(state: State<T>, file: Seq<u8>, key: u128)
    requires
        state.backend == CollectionBackend::File,
        delete_step(state, key).answer.is_ok(),
    ensures
        in_line(
            commit_step(delete_step(state, key).state, true),
            file_after_all(file, delete_step(state, key).answer.unwrap()),
        ),
{
    let kept = without(state.docs, key);
    lemma_rewrite_verdict_none(kept, state.slot);
    lemma_rewrite_gives_image(file, kept, state.slot);
}

/// Resize correctness: where the record of an accepted insert is longer
/// than the slot size, the new slot size is the smallest multiple of the
/// increment that the record fits; and once the operations are carried
/// out, on whatever the file held, every document that was stored before
/// stands in the slot of its position, its record unchanged and filled up
/// to the new slot size, and is found under its key as before.
pub proof fn law_resize_keeps_documents<T: Document<T>>(state: State<T>, file: Seq<u8>, doc: T)
    requires
        state.backend == CollectionBackend::File,
        distinct_keys(state.docs),
        insert_step(state, doc).answer.is_ok(),
        record_of(doc).unwrap().len() > state.slot,
    ensures
        is_multiple_of(insert_step(state, doc).state.staged.unwrap().slot, state.increment),
        insert_step(state, doc).state.staged.unwrap().slot >= record_of(doc).unwrap().len(),
        forall|m: nat| #[trigger]
            is_multiple_of(m, state.increment) && m >= record_of(doc).unwrap().len() ==> m >= insert_step(
                state,
                doc,
            ).state.staged.unwrap().slot,
        forall|i: int|
            0 <= i < state.docs.len() ==> #[trigger] slot_bytes(
                file_after_all(file, insert_step(state, doc).answer.unwrap()),
                i,
                insert_step(state, doc).state.staged.unwrap().slot,
            ) == padded(record_of(state.docs[i]).unwrap(), insert_step(state, doc).state.staged.unwrap().slot),
        forall|i: int|
            0 <= i < state.docs.len() ==> lookup(
                insert_step(state, doc).state.staged.unwrap().docs,
                (#[trigger] state.docs[i]).key(),
            ) == Some(state.docs[i]),
{
    let docs = state.docs;
    let record = record_of(doc).unwrap();
    let step = insert_step(state, doc);
    let next = step.state.staged.unwrap();
    let size = grown_slot_size(state.slot, record.len(), state.increment);
    let write = slot_write(doc, docs.len(), size);
    let written = file_after_all(file, step.answer.unwrap());
    lemma_grown_is_smallest_multiple(state.slot, record.len(), state.increment);
    lemma_rewrite_verdict_none(docs, size);
    assert(!has_key(docs, doc.key()));
    assert(next.docs == docs.push(doc));
    lemma_after_all_push(file, rewrite_ops(docs, size), write);
    lemma_rewrite_gives_image(file, docs, size);
    lemma_append_gives_image(docs, size, doc);
    lemma_all_fit_put(docs, size, doc);
    assert(written == file_image(next.docs, size));
    assert forall|i: int| 0 <= i < docs.len() implies #[trigger] slot_bytes(written, i, next.slot) == padded(
        record_of(docs[i]).unwrap(),
        next.slot,
    ) by {
        lemma_image_slot(next.docs, size, i);
        assert(next.docs[i] == docs[i]);
    }
    assert forall|i: int| 0 <= i < docs.len() implies lookup(next.docs, (#[trigger] docs[i]).key()) == Some(
        docs[i],
    ) by {
        assert(docs[i].key() != doc.key());
        law_put_keeps_others(docs, doc, docs[i].key());
        lemma_position_of(docs, docs[i].key(), i);
    }
}

/// Delete compaction: once the operations of an accepted delete of the
/// document in slot `k` are carried out, on whatever the file held, the
/// documents from the slots before `k` stand where they stood, those from
/// the slots behind `k` stand one slot further up, the file ends behind
/// the last of them, and each of them is found under its key as before.
pub proof fn law_delete_compacts_file<T: Document<T>>(state: State<T>, file: Seq<u8>, k: int)
    requires
        state.backend == CollectionBackend::File,
        distinct_keys(state.docs),
        0 <= k < state.docs.len(),
        delete_step(state, state.docs[k].key()).answer.is_ok(),
    ensures
        delete_step(state, state.docs[k].key()).state.staged.unwrap().slot == state.slot,
        delete_step(state, state.docs[k].key()).state.staged.unwrap().docs.len() == state.docs.len() - 1,
        file_after_all(file, delete_step(state, state.docs[k].key()).answer.unwrap()).len() == slot_offset(
            (state.docs.len() - 1) as nat,
            state.slot,
        ),
        forall|i: int|
            0 <= i < state.docs.len() - 1 ==> #[trigger] slot_bytes(
                file_after_all(file, delete_step(state, state.docs[k].key()).answer.unwrap()),
                i,
                state.slot,
            ) == padded(record_of(state.docs[if i < k { i } else { i + 1 }]).unwrap(), state.slot),
        forall|i: int|
            0 <= i < state.docs.len() && i != k ==> lookup(
                delete_step(state, state.docs[k].key()).state.staged.unwrap().docs,
                (#[trigger] state.docs[i]).key(),
            ) == Some(state.docs[i]),
{
    let docs = state.docs;
    let key = docs[k].key();
    let step = delete_step(state, key);
    let next = step.state.staged.unwrap();
    let written = file_after_all(file, step.answer.unwrap());
    law_delete_compacts(docs, k);
    lemma_position_of(docs, key, k);
    lemma_rewrite_verdict_none(next.docs, state.slot);
    lemma_rewrite_gives_image(file, next.docs, state.slot);
    lemma_image_len(next.docs, state.slot);
    assert forall|i: int| 0 <= i < docs.len() - 1 implies #[trigger] slot_bytes(written, i, state.slot) == padded(
        record_of(docs[if i < k { i } else { i + 1 }]).unwrap(),
        state.slot,
    ) by {
        lemma_image_slot(next.docs, state.slot, i);
    }
    assert forall|i: int| 0 <= i < docs.len() && i != k implies lookup(next.docs, (#[trigger] docs[i]).key())
        == Some(docs[i]) by {
        if i < k {
            assert(docs[i].key() != docs[k].key());
        } else {
            assert(docs[k].key() != docs[i].key());
        }
        lemma_position_of(docs, docs[i].key(), i);
        assert(lookup(docs, docs[i].key()) == Some(docs[i]));
        assert(next.docs == without(docs, key));
        assert(lookup(without(docs, key), docs[i].key()) == lookup(docs, docs[i].key()));
    }
}

} // verus!
