//! That a record file gives back the documents it was written from.

use crate::dir_based::{dir_loaded, file_name, lemma_file_name_names_document, names_document, StoredFile};
use crate::document::{distinct_keys, has_key, lemma_position_of, lookup, parse, put, record_of, Document};
use crate::file_image::{all_fit, file_image, lemma_image_len, lemma_image_slot, lemma_offset_monotone, lemma_offset_steps};
use crate::file_laws::{in_line, law_insert_keeps_file_in_line};
use crate::file_load::{
    blank_at_end, blank_at_start, drop_blank, is_blank, line_end, loaded, record_on_line, skip_blank,
};
use crate::file_plan::record_verdict;
use crate::layout::{padded, slot_offset, FILL, NEWLINE};
use crate::machine::{commit_step, insert_step, CollectionBackend, State};
use crate::storage::{file_after_all, Op};
use vstd::prelude::*;

verus! {

/// The document can be read back from the slot that holds it: it has a
/// serialized form that is not empty, holds no newline, neither starts nor
/// ends with a white space character, and is read as the document itself.
pub open spec fn reads_back<T: Document<T>>(doc: T) -> bool {
    match record_of(doc) {
        Some(record) => {
            &&& record.len() > 0
            &&& blank_at_start(record, 0, record.len() as int) == 0
            &&& blank_at_end(record, 0, record.len() as int) == 0
            &&& forall|j: int| 0 <= j < record.len() ==> record[j] != NEWLINE
            &&& parse::<T>(record) == Some(doc)
        },
        None => false,
    }
}

/// Each document of `docs` can be read back from its slot.
pub open spec fn all_read_back<T: Document<T>>(docs: Seq<T>) -> bool {
    forall|i: int| 0 <= i < docs.len() ==> reads_back(#[trigger] docs[i])
}

proof fn lemma_line_ends_at(bytes: Seq<u8>, from: int, end: int)
    requires
        0 <= from <= end <= bytes.len(),
        forall|i: int| from <= i < end ==> bytes[i] != NEWLINE,
        end < bytes.len() ==> bytes[end] == NEWLINE,
    ensures
        line_end(bytes, from) == end,
    decreases end - from,
{
    if from < end {
        lemma_line_ends_at(bytes, from + 1, end);
    }
}

proof fn lemma_drop_blank_to(bytes: Seq<u8>, from: int, mid: int, end: int)
    requires
        0 <= from < mid <= end <= bytes.len(),
        forall|i: int| mid <= i < end ==> is_blank(bytes[i]),
        blank_at_end(bytes, from, mid) == 0,
    ensures
        drop_blank(bytes, from, end) == mid,
    decreases end - mid,
{
    if mid < end {
        lemma_drop_blank_to(bytes, from, mid, end - 1);
    }
}

proof fn lemma_take_put<T: Document<T>>(docs: Seq<T>, k: int)
    requires
        distinct_keys(docs),
        0 <= k < docs.len(),
    ensures
        put(docs.take(k), docs[k]) == docs.take(k + 1),
{
    let front = docs.take(k);
    if has_key(front, docs[k].key()) {
        let i = choose|i: int| 0 <= i < front.len() && (#[trigger] front[i]).key() == docs[k].key();
        assert(front[i] == docs[i]);
        assert(docs[i].key() != docs[k].key());
    }
    assert(front.push(docs[k]) =~= docs.take(k + 1));
}

proof fn lemma_slot_byte<T: Document<T>>(docs: Seq<T>, slot: nat, k: int, j: int)
    requires
        all_fit(docs, slot),
        0 <= k < docs.len(),
        0 <= j <= slot,
    ensures
        slot_offset(k as nat, slot) + j < file_image(docs, slot).len(),
        file_image(docs, slot)[slot_offset(k as nat, slot) + j] == (if j < record_of(docs[k]).unwrap().len() {
            record_of(docs[k]).unwrap()[j]
        } else if j < slot {
            FILL
        } else {
            NEWLINE
        }),
{
    let image = file_image(docs, slot);
    let from = slot_offset(k as nat, slot) as int;
    let record = record_of(docs[k]).unwrap();
    lemma_image_slot(docs, slot, k);
    lemma_offset_steps(k as nat, slot);
    let held = image.subrange(from, from + slot + 1);
    assert(held == padded(record, slot));
    assert(held[j] == image[from + j]);
    assert(record_verdict(docs[k], slot).is_none());
}

proof fn lemma_load_from_slot<T: Document<T>>(docs: Seq<T>, slot: nat, k: int)
    requires
        distinct_keys(docs),
        all_fit(docs, slot),
        all_read_back(docs),
        0 <= k <= docs.len(),
    ensures
        loaded(docs.take(k), file_image(docs, slot), slot_offset(k as nat, slot) as int) == docs,
    decreases docs.len() - k,
{
    let image = file_image(docs, slot);
    let from = slot_offset(k as nat, slot) as int;
    lemma_image_len(docs, slot);
    if k == docs.len() {
        assert(line_end(image, from) == from);
        assert(record_on_line(image, from, from).len() == 0);
        assert(docs.take(k) =~= docs);
    } else {
        let record = record_of(docs[k]).unwrap();
        let end = from + slot;
        let stop = from + record.len();
        lemma_image_slot(docs, slot, k);
        lemma_offset_steps(k as nat, slot);
        lemma_offset_monotone((k + 1) as nat, docs.len(), slot);
        assert(reads_back(docs[k]));
        assert(record_verdict(docs[k], slot).is_none());
        assert forall|i: int| from <= i < end implies image[i] != NEWLINE by {
            lemma_slot_byte(docs, slot, k, i - from);
        }
        lemma_slot_byte(docs, slot, k, slot as int);
        lemma_line_ends_at(image, from, end);
        lemma_slot_byte(docs, slot, k, 0);
        if slot > 1 {
            lemma_slot_byte(docs, slot, k, 1);
        }
        if slot > 2 {
            lemma_slot_byte(docs, slot, k, 2);
        }
        assert(blank_at_start(image, from, end) == 0);
        assert(skip_blank(image, from, end) == from);
        assert forall|i: int| stop <= i < end implies is_blank(image[i]) by {
            lemma_slot_byte(docs, slot, k, i - from);
        }
        lemma_slot_byte(docs, slot, k, record.len() - 1);
        if record.len() > 1 {
            lemma_slot_byte(docs, slot, k, record.len() - 2);
        }
        if record.len() > 2 {
            lemma_slot_byte(docs, slot, k, record.len() - 3);
        }
        assert(blank_at_end(image, from, stop) == 0);
        lemma_drop_blank_to(image, from, stop, end);
        assert(record_on_line(image, from, end) =~= record) by {
            assert forall|j: int| 0 <= j < record.len() implies image.subrange(from, stop)[j] == record[j] by {
                lemma_slot_byte(docs, slot, k, j);
            }
        }
        lemma_take_put(docs, k);
        lemma_load_from_slot(docs, slot, k + 1);
    }
}

/// Round trip, of a whole file: reading the record file of documents that
/// can be read back gives those documents, in their order.
pub proof fn law_file_reads_back<T: Document<T>>(docs: Seq<T>, slot: nat)
    requires
        distinct_keys(docs),
        all_fit(docs, slot),
        all_read_back(docs),
    ensures
        loaded(Seq::<T>::empty(), file_image(docs, slot), 0) == docs,
{
    lemma_load_from_slot(docs, slot, 0);
    lemma_offset_steps(0, slot);
    assert(docs.take(0) =~= Seq::<T>::empty());
}

/// Round trip: once the operations of an accepted insert are carried out
/// on a file that was in line with the collection, a new collection that
/// reads the file holds the documents of the first one, and finds the
/// inserted document under its key. The documents must be such that they
/// can be read back.
pub proof fn law_insert_round_trip<T: Document<T>>(state: State<T>, file: Seq<u8>, doc: T)
    requires
        state.backend == CollectionBackend::File,
        distinct_keys(state.docs),
        in_line(state, file),
        all_read_back(state.docs),
        reads_back(doc),
        insert_step(state, doc).answer.is_ok(),
    ensures
        loaded(
            Seq::<T>::empty(),
            file_after_all(file, insert_step(state, doc).answer.unwrap()),
            0,
        ) == commit_step(insert_step(state, doc).state, true).docs,
        lookup(
            loaded(Seq::<T>::empty(), file_after_all(file, insert_step(state, doc).answer.unwrap()), 0),
            doc.key(),
        ) == Some(doc),
{
    let after = commit_step(insert_step(state, doc).state, true);
    law_insert_keeps_file_in_line(state, file, doc);
    assert(after.docs == put(state.docs, doc));
    crate::document::lemma_put_distinct(state.docs, doc);
    assert(!has_key(state.docs, doc.key()));
    assert forall|i: int| 0 <= i < after.docs.len() implies reads_back(#[trigger] after.docs[i]) by {
        if i < state.docs.len() {
            assert(after.docs[i] == state.docs[i]);
        }
    }
    law_file_reads_back(after.docs, after.slot);
}

/// The file is the one that the directory backend writes for `doc`: it
/// has the name of the document's key and holds the serialized document.
pub open spec fn holds_document<T: Document<T>>(file: StoredFile, doc: T) -> bool {
    file.name@ == file_name(doc.key()) && record_of(doc) == Some(file.bytes@)
}

/// The serialized form of the document is read as the document itself.
pub open spec fn parses_back<T: Document<T>>(doc: T) -> bool {
    record_of(doc).is_some() && parse::<T>(record_of(doc).unwrap()) == Some(doc)
}

/// Round trip, of a directory: an accepted insert into a directory backed
/// collection answers with one write, of the file that holds the
/// document, and that file is named as a document's.
pub proof fn law_dir_insert_writes_the_document<T: Document<T>>(state: State<T>, doc: T)
    requires
        state.backend == CollectionBackend::Dir,
        insert_step(state, doc).answer.is_ok(),
    ensures
        insert_step(state, doc).answer.unwrap() == seq![
            Op::WriteFile { name: file_name(doc.key()), bytes: record_of(doc).unwrap() },
        ],
        names_document(file_name(doc.key())),
        commit_step(insert_step(state, doc).state, true).docs == put(state.docs, doc),
{
    lemma_file_name_names_document(doc.key());
}

/// Round trip, of a directory: reading the files that the directory
/// backend wrote for documents under distinct keys, in whatever order the
/// files are listed, gives those documents in that order.
pub proof fn law_dir_reads_back<T: Document<T>>(listed: Seq<T>, files: Seq<StoredFile>)
    requires
        distinct_keys(listed),
        files.len() == listed.len(),
        forall|i: int| 0 <= i < listed.len() ==> holds_document(#[trigger] files[i], listed[i]),
        forall|i: int| 0 <= i < listed.len() ==> parses_back(#[trigger] listed[i]),
    ensures
        dir_loaded(Seq::<T>::empty(), files) == listed,
    decreases files.len(),
{
    if files.len() == 0 {
        assert(listed =~= Seq::<T>::empty());
    } else {
        let last = listed.len() - 1;
        let front = listed.drop_last();
        assert forall|i: int| 0 <= i < front.len() implies holds_document(#[trigger] files.drop_last()[i], front[i]) by {
            assert(holds_document(files[i], listed[i]));
        }
        assert forall|i: int| 0 <= i < front.len() implies parses_back(#[trigger] front[i]) by {
            assert(parses_back(listed[i]));
        }
        law_dir_reads_back(front, files.drop_last());
        assert(holds_document(files[last], listed[last]));
        assert(parses_back(listed[last]));
        lemma_file_name_names_document(listed[last].key());
        assert(front =~= listed.take(last));
        lemma_take_put(listed, last);
        assert(listed.take(last + 1) =~= listed);
    }
}

/// Round trip, of a directory: a new collection that reads a directory in
/// which the file written for `doc` is listed, beside the files of
/// documents under other keys, finds `doc` under its key.
pub proof fn law_dir_finds_the_written<T: Document<T>>(listed: Seq<T>, files: Seq<StoredFile>, doc: T, at: int)
    requires
        distinct_keys(listed),
        files.len() == listed.len(),
        forall|i: int| 0 <= i < listed.len() ==> holds_document(#[trigger] files[i], listed[i]),
        forall|i: int| 0 <= i < listed.len() ==> parses_back(#[trigger] listed[i]),
        0 <= at < listed.len(),
        listed[at] == doc,
    ensures
        lookup(dir_loaded(Seq::<T>::empty(), files), doc.key()) == Some(doc),
{
    law_dir_reads_back(listed, files);
    lemma_position_of(listed, doc.key(), at);
}

} // verus!
