//! The contract between a collection and the records it keeps.

use crate::error::Error;
use vstd::prelude::*;

verus! {

/// What a record type must offer to be kept in a collection.
///
/// The spec functions are the mathematical reading of a document. Each
/// executable method returns what its spec function says; a collection
/// relies on that, and on nothing else, for any type that implements the
/// trait.
pub trait Document<T>: Sized {
    /// The primary key of the document.
    spec fn key(&self) -> u128;

    /// Whether keeping the document next to `doc` would break a uniqueness
    /// rule.
    spec fn conflicts_with(&self, doc: &T) -> bool;

    /// The serialized form of the document, or `None` where it has none.
    spec fn json(&self) -> Option<Vec<u8>>;

    /// The document that `text` is the serialized form of, if it is one.
    spec fn parsed(text: &[u8]) -> Option<Self>;

    /// Returns the primary key for the document.
    fn primary_key(&self) -> (key: u128)
        ensures
            key == self.key(),
    ;

    /// Says whether the document clashes with `doc`: `Err` with the reason
    /// if it does. A collection calls this on the document that comes in,
    /// with each stored document under another key as `doc`.
    fn intersects(&self, doc: &T) -> (verdict: Result<(), &str>)
        ensures
            verdict.is_err() == self.conflicts_with(doc),
    ;

    /// Serializes the document.
    fn to_json(&self) -> (text: Option<Vec<u8>>)
        ensures
            text.is_some() == self.json().is_some(),
            text.is_some() ==> text.unwrap()@ == self.json().unwrap()@,
    ;

    /// Reads a document back from its serialized form.
    fn from_json(text: &[u8]) -> (doc: Option<Self>)
        ensures
            doc == Self::parsed(text),
    ;
}

/// The serialized form of `doc` as a sequence of bytes.
pub open spec fn record_of<T: Document<T>>(doc: T) -> Option<Seq<u8>> {
    match doc.json() {
        Some(text) => Some(text@),
        None => None,
    }
}

/// The document that the bytes `text` are the serialized form of, if they
/// are one.
pub open spec fn parse<T: Document<T>>(text: Seq<u8>) -> Option<T> {
    T::parsed(choose|s: &[u8]| s@ == text)
}

/// `parse` reads a slice by the bytes it holds.
pub proof fn lemma_parse_slice<T: Document<T>>(text: &[u8])
    ensures
        parse::<T>(text@) == T::parsed(text),
{
    let s = choose|s: &[u8]| s@ == text@;
    assert(text@ == text@);
    assert(s@ == text@);
    assert(s =~= text);
}

/// Some document of `docs` has the key `key`.
pub open spec fn has_key<T: Document<T>>(docs: Seq<T>, key: u128) -> bool {
    exists|i: int| 0 <= i < docs.len() && (#[trigger] docs[i]).key() == key
}

/// No two documents of `docs` share a key.
pub open spec fn distinct_keys<T: Document<T>>(docs: Seq<T>) -> bool {
    forall|i: int, j: int|
        0 <= i < j < docs.len() ==> (#[trigger] docs[i]).key() != (#[trigger] docs[j]).key()
}

/// A position at which `docs` holds a document with the key `key`; where
/// the keys are distinct there is one such position at most.
pub open spec fn position_of<T: Document<T>>(docs: Seq<T>, key: u128) -> int {
    choose|i: int| 0 <= i < docs.len() && (#[trigger] docs[i]).key() == key
}

/// The document of `docs` that has the key `key`, if there is one.
pub open spec fn lookup<T: Document<T>>(docs: Seq<T>, key: u128) -> Option<T> {
    if has_key(docs, key) {
        Some(docs[position_of(docs, key)])
    } else {
        None
    }
}

/// `docs` with `doc` under its key: in the place of the document that has
/// the key, or at the end where none has it.
pub open spec fn put<T: Document<T>>(docs: Seq<T>, doc: T) -> Seq<T> {
    if has_key(docs, doc.key()) {
        docs.update(position_of(docs, doc.key()), doc)
    } else {
        docs.push(doc)
    }
}

/// `docs` without the document that has the key `key`; those behind it
/// move up by one position.
pub open spec fn without<T: Document<T>>(docs: Seq<T>, key: u128) -> Seq<T> {
    if has_key(docs, key) {
        docs.remove(position_of(docs, key))
    } else {
        docs
    }
}

/// Where the keys are distinct, a key names one position.
pub proof fn lemma_position_of<T: Document<T>>(docs: Seq<T>, key: u128, i: int)
    requires
        distinct_keys(docs),
        0 <= i < docs.len(),
        docs[i].key() == key,
    ensures
        has_key(docs, key),
        position_of(docs, key) == i,
{
    let p = position_of(docs, key);
    assert(0 <= p < docs.len() && docs[p].key() == key);
    if p < i {
        assert(docs[p].key() != docs[i].key());
    } else if i < p {
        assert(docs[i].key() != docs[p].key());
    }
}

/// Putting a document keeps the keys distinct.
pub proof fn lemma_put_distinct<T: Document<T>>(docs: Seq<T>, doc: T)
    requires
        distinct_keys(docs),
    ensures
        distinct_keys(put(docs, doc)),
        has_key(put(docs, doc), doc.key()),
        lookup(put(docs, doc), doc.key()) == Some(doc),
{
    let after = put(docs, doc);
    if has_key(docs, doc.key()) {
        let p = position_of(docs, doc.key());
        assert(0 <= p < docs.len() && docs[p].key() == doc.key());
        assert forall|i: int, j: int| 0 <= i < j < after.len() implies (#[trigger] after[i]).key() != (
        #[trigger] after[j]).key() by {
            assert(docs[i].key() != docs[j].key());
            if i == p {
                assert(docs[p].key() != docs[j].key());
            }
            if j == p {
                assert(docs[i].key() != docs[p].key());
            }
        }
        assert(after[p].key() == doc.key());
        lemma_position_of(after, doc.key(), p);
    } else {
        assert forall|i: int, j: int| 0 <= i < j < after.len() implies (#[trigger] after[i]).key() != (
        #[trigger] after[j]).key() by {
            if j == docs.len() {
                assert(docs[i].key() != doc.key());
            } else {
                assert(docs[i].key() != docs[j].key());
            }
        }
        assert(after[docs.len() as int].key() == doc.key());
        lemma_position_of(after, doc.key(), docs.len() as int);
    }
}

/// Taking a document out keeps the keys distinct, and its key is gone.
pub proof fn lemma_without_distinct<T: Document<T>>(docs: Seq<T>, key: u128)
    requires
        distinct_keys(docs),
    ensures
        distinct_keys(without(docs, key)),
        !has_key(without(docs, key), key),
{
    let after = without(docs, key);
    if has_key(docs, key) {
        let p = position_of(docs, key);
        assert(0 <= p < docs.len() && docs[p].key() == key);
        assert forall|i: int, j: int| 0 <= i < j < after.len() implies (#[trigger] after[i]).key() != (
        #[trigger] after[j]).key() by {
            let oi = if i < p { i } else { i + 1 };
            let oj = if j < p { j } else { j + 1 };
            assert(after[i] == docs[oi]);
            assert(after[j] == docs[oj]);
            assert(docs[oi].key() != docs[oj].key());
        }
        if has_key(after, key) {
            let q = position_of(after, key);
            assert(0 <= q < after.len() && after[q].key() == key);
            let oq = if q < p { q } else { q + 1 };
            assert(after[q] == docs[oq]);
            if oq < p {
                assert(docs[oq].key() != docs[p].key());
            } else {
                assert(docs[p].key() != docs[oq].key());
            }
        }
    }
}

/// Some document of `docs` under another key clashes with `doc`, by the
/// conflict check of `doc`.
///
/// It is always the incoming document that is asked, never a stored one.
/// The two answers differ only for a rule that is not mutual.
pub open spec fn clashes<T: Document<T>>(docs: Seq<T>, doc: T) -> bool {
    exists|i: int| 0 <= i < docs.len() && #[trigger] clash_at(docs, doc, i)
}

/// The document at position `i` of `docs` has another key than `doc` and
/// clashes with it.
pub open spec fn clash_at<T: Document<T>>(docs: Seq<T>, doc: T, i: int) -> bool {
    docs[i].key() != doc.key() && doc.conflicts_with(&docs[i])
}

/// Why `doc` is not taken into `docs`, if it is not: its key is taken, or it
/// clashes with a document.
pub open spec fn insert_refusal<T: Document<T>>(docs: Seq<T>, doc: T) -> Option<Error> {
    if has_key(docs, doc.key()) {
        Some(Error::DuplicateKey)
    } else if clashes(docs, doc) {
        Some(Error::ConstraintViolation)
    } else {
        None
    }
}

/// Why `doc` does not take the place of a document of `docs`, if it does
/// not: it clashes with a document under another key, or no document has
/// its key.
pub open spec fn update_refusal<T: Document<T>>(docs: Seq<T>, doc: T) -> Option<Error> {
    if clashes(docs, doc) {
        Some(Error::ConstraintViolation)
    } else if !has_key(docs, doc.key()) {
        Some(Error::KeyNotFound)
    } else {
        None
    }
}

/// Why no document leaves `docs` for the key `key`, if none does: no
/// document has the key.
pub open spec fn delete_refusal<T: Document<T>>(docs: Seq<T>, key: u128) -> Option<Error> {
    if has_key(docs, key) {
        None
    } else {
        Some(Error::KeyNotFound)
    }
}

/// `picked` is what filtering `docs` by `f` gives: a clone of each document
/// that `f` accepts, in the order of `docs`, and none of those that it
/// rejects.
pub open spec fn selects<T: Clone, F: Fn(&T) -> bool>(f: F, docs: Seq<T>, picked: Seq<T>) -> bool
    decreases docs.len(),
{
    if docs.len() == 0 {
        picked.len() == 0
    } else {
        ||| call_ensures(f, (&docs.last(),), false) && selects(f, docs.drop_last(), picked)
        ||| picked.len() > 0 && call_ensures(f, (&docs.last(),), true) && cloned(docs.last(), picked.last())
            && selects(f, docs.drop_last(), picked.drop_last())
    }
}

/// `found` is what searching `docs` by `f` gives: a clone of the first
/// document that `f` accepts, or nothing where it rejects them all.
pub open spec fn finds<T: Clone, F: Fn(&T) -> bool>(f: F, docs: Seq<T>, found: Option<T>) -> bool {
    match found {
        Some(doc) => exists|i: int|
            0 <= i < docs.len() && #[trigger] call_ensures(f, (&docs[i],), true) && cloned(docs[i], doc)
                && forall|k: int| 0 <= k < i ==> #[trigger] call_ensures(f, (&docs[k],), false),
        None => forall|k: int| 0 <= k < docs.len() ==> #[trigger] call_ensures(f, (&docs[k],), false),
    }
}

/// `got` is what looking up `key` in `docs` gives: a clone of the document
/// under that key, or nothing where there is none.
pub open spec fn fetches<T: Document<T> + Clone>(docs: Seq<T>, key: u128, got: Option<T>) -> bool {
    match lookup(docs, key) {
        Some(doc) => got.is_some() && cloned(doc, got.unwrap()),
        None => got.is_none(),
    }
}

} // verus!
