//! What holds of every collection, stated over the state machine and
//! proved from its definition.

use crate::document::{
    clash_at, clashes, distinct_keys, has_key, insert_refusal, lemma_position_of, lemma_put_distinct,
    lemma_without_distinct, lookup, position_of, put, selects, without, Document,
};
use crate::error::Error;
use crate::machine::{commit_step, delete_step, insert_step, update_step, State};
use vstd::prelude::*;

verus! {

/// No two documents of `docs` under different keys clash, whichever of the
/// two is asked.
pub open spec fn conflict_free<T: Document<T>>(docs: Seq<T>) -> bool {
    forall|i: int, j: int|
        0 <= i < docs.len() && 0 <= j < docs.len() && (#[trigger] docs[i]).key() != (#[trigger] docs[j]).key()
            ==> !docs[i].conflicts_with(&docs[j])
}

/// `doc` clashes with a document of `docs` exactly when that document
/// clashes with `doc`.
pub open spec fn mutual_with<T: Document<T>>(docs: Seq<T>, doc: T) -> bool {
    forall|i: int| 0 <= i < docs.len() ==> (#[trigger] docs[i]).conflicts_with(&doc) == doc.conflicts_with(&docs[i])
}

/// The keys of the committed documents are distinct and no two of the
/// documents clash; the same holds of what a staged change leads to.
pub open spec fn unique<T: Document<T>>(state: State<T>) -> bool {
    &&& distinct_keys(state.docs)
    &&& conflict_free(state.docs)
    &&& match state.staged {
        Some(next) => distinct_keys(next.docs) && conflict_free(next.docs),
        None => true,
    }
}

/// Putting a document that passed the check of an insert or of an update
/// keeps the documents free of clashes, where the document's rule is
/// mutual.
pub proof fn lemma_put_conflict_free<T: Document<T>>(docs: Seq<T>, doc: T)
    requires
        distinct_keys(docs),
        conflict_free(docs),
        !clashes(docs, doc),
        mutual_with(docs, doc),
    ensures
        conflict_free(put(docs, doc)),
{
    let after = put(docs, doc);
    assert forall|i: int, j: int|
        0 <= i < after.len() && 0 <= j < after.len() && (#[trigger] after[i]).key() != (
        #[trigger] after[j]).key() implies !after[i].conflicts_with(&after[j]) by {
        let p = if has_key(docs, doc.key()) {
            position_of(docs, doc.key())
        } else {
            docs.len() as int
        };
        if i != p && j != p {
            assert(after[i] == docs[i] && after[j] == docs[j]);
        } else if i == p && j != p {
            assert(after[j] == docs[j]);
            assert(!clash_at(docs, doc, j));
        } else if j == p && i != p {
            assert(after[i] == docs[i]);
            assert(!clash_at(docs, doc, i));
            assert(docs[i].conflicts_with(&doc) == doc.conflicts_with(&docs[i]));
        }
    }
}

/// Taking a document out keeps the documents free of clashes.
pub proof fn lemma_without_conflict_free<T: Document<T>>(docs: Seq<T>, key: u128)
    requires
        conflict_free(docs),
    ensures
        conflict_free(without(docs, key)),
{
    let after = without(docs, key);
    if has_key(docs, key) {
        let p = position_of(docs, key);
        assert forall|i: int, j: int|
            0 <= i < after.len() && 0 <= j < after.len() && (#[trigger] after[i]).key() != (
            #[trigger] after[j]).key() implies !after[i].conflicts_with(&after[j]) by {
            let oi = if i < p { i } else { i + 1 };
            let oj = if j < p { j } else { j + 1 };
            assert(after[i] == docs[oi] && after[j] == docs[oj]);
        }
    }
}

/// Uniqueness invariant, at the start: a collection without documents
/// holds no two that clash.
pub proof fn law_unique_at_start<T: Document<T>>(state: State<T>)
    requires
        state.docs.len() == 0,
        state.staged.is_none(),
    ensures
        unique(state),
{
}

/// Uniqueness invariant, over an insert: where no two documents clash
/// before, none do after, neither among the committed documents nor among
/// those that the staged insert leads to. The rule of the new document
/// must be mutual with the documents that are there.
pub proof fn law_unique_after_insert<T: Document<T>>(state: State<T>, doc: T)
    requires
        unique(state),
        mutual_with(state.docs, doc),
    ensures
        unique(insert_step(state, doc).state),
{
    if insert_refusal(state.docs, doc).is_none() {
        lemma_put_distinct(state.docs, doc);
        lemma_put_conflict_free(state.docs, doc);
    }
}

/// Uniqueness invariant, over an update: as for an insert.
pub proof fn law_unique_after_update<T: Document<T>>(state: State<T>, doc: T)
    requires
        unique(state),
        mutual_with(state.docs, doc),
    ensures
        unique(update_step(state, doc).state),
{
    if !clashes(state.docs, doc) {
        lemma_put_distinct(state.docs, doc);
        lemma_put_conflict_free(state.docs, doc);
    }
}

/// Uniqueness invariant, over a delete.
pub proof fn law_unique_after_delete<T: Document<T>>(state: State<T>, key: u128)
    requires
        unique(state),
    ensures
        unique(delete_step(state, key).state),
{
    lemma_without_distinct(state.docs, key);
    lemma_without_conflict_free(state.docs, key);
}

/// Uniqueness invariant, over a commit.
pub proof fn law_unique_after_commit<T: Document<T>>(state: State<T>, written: bool)
    requires
        unique(state),
    ensures
        unique(commit_step(state, written)),
{
}

/// Conflict rejection: a document that clashes with a document under
/// another key is refused with `ConstraintViolation`, and the documents
/// stay as they were.
pub proof fn law_conflict_rejected<T: Document<T>>(state: State<T>, doc: T)
    requires
        !has_key(state.docs, doc.key()),
        clashes(state.docs, doc),
    ensures
        insert_step(state, doc).answer == Err::<Seq<crate::storage::Op>, Error>(Error::ConstraintViolation),
        insert_step(state, doc).state.docs == state.docs,
        insert_step(state, doc).state.staged.is_none(),
{
}

/// Conflict rejection, for two inserts in a row: where the first document
/// is taken in and the second, under another key, clashes with it, the
/// second is refused with `ConstraintViolation` and the first stays the
/// only document.
pub proof fn law_second_of_clashing_pair_rejected<T: Document<T>>(state: State<T>, first: T, second: T)
    requires
        state.docs.len() == 0,
        insert_step(state, first).answer.is_ok(),
        first.key() != second.key(),
        second.conflicts_with(&first),
    ensures
        ({
            let held = commit_step(insert_step(state, first).state, true);
            &&& held.docs == seq![first]
            &&& insert_step(held, second).answer == Err::<Seq<crate::storage::Op>, Error>(
                Error::ConstraintViolation,
            )
            &&& commit_step(insert_step(held, second).state, true).docs == seq![first]
        }),
{
    let held = commit_step(insert_step(state, first).state, true);
    assert(!has_key(state.docs, first.key()));
    assert(put(state.docs, first) =~= seq![first]);
    assert(held.docs == seq![first]);
    if has_key(held.docs, second.key()) {
        let i = position_of(held.docs, second.key());
        assert(held.docs[i].key() == second.key());
    }
    assert(clash_at(held.docs, second, 0));
}

/// Duplicate key rejection: a document whose key is taken is refused with
/// `DuplicateKey`, whatever else it holds, and the documents stay as they
/// were.
pub proof fn law_duplicate_key_rejected<T: Document<T>>(state: State<T>, doc: T)
    requires
        has_key(state.docs, doc.key()),
    ensures
        insert_step(state, doc).answer == Err::<Seq<crate::storage::Op>, Error>(Error::DuplicateKey),
        insert_step(state, doc).state.docs == state.docs,
        insert_step(state, doc).state.staged.is_none(),
{
}

/// Duplicate key rejection, for two inserts in a row: once a document is
/// taken in, a second one with its key is refused with `DuplicateKey`.
pub proof fn law_second_of_same_key_rejected<T: Document<T>>(state: State<T>, first: T, second: T)
    requires
        distinct_keys(state.docs),
        insert_step(state, first).answer.is_ok(),
        first.key() == second.key(),
    ensures
        insert_step(commit_step(insert_step(state, first).state, true), second).answer == Err::<
            Seq<crate::storage::Op>,
            Error,
        >(Error::DuplicateKey),
{
    lemma_put_distinct(state.docs, first);
}

/// Idempotent read: two filters of the same documents by the same
/// predicate give the same documents in the same order, where the
/// predicate gives one verdict on each document and a clone is a copy.
pub proof fn law_filter_idempotent<T: Clone, F: Fn(&T) -> bool>(f: F, docs: Seq<T>, first: Seq<T>, second: Seq<T>)
    requires
        selects(f, docs, first),
        selects(f, docs, second),
        forall|i: int|
            0 <= i < docs.len() ==> !(#[trigger] call_ensures(f, (&docs[i],), true) && call_ensures(
                f,
                (&docs[i],),
                false,
            )),
        forall|i: int, copy: T| 0 <= i < docs.len() && #[trigger] cloned(docs[i], copy) ==> copy == docs[i],
    ensures
        first == second,
    decreases docs.len(),
{
    if docs.len() == 0 {
        assert(first =~= second);
    } else {
        let front = docs.drop_last();
        let last = docs.len() - 1;
        assert(docs.last() == docs[last]);
        assert forall|i: int| 0 <= i < front.len() implies !(#[trigger] call_ensures(f, (&front[i],), true)
            && call_ensures(f, (&front[i],), false)) by {
            assert(front[i] == docs[i]);
        }
        assert forall|i: int, copy: T| 0 <= i < front.len() && #[trigger] cloned(front[i], copy) implies copy
            == front[i] by {
            assert(front[i] == docs[i]);
        }
        if call_ensures(f, (&docs[last],), true) {
            assert(!call_ensures(f, (&docs[last],), false));
            law_filter_idempotent(f, front, first.drop_last(), second.drop_last());
            assert(first.last() == docs[last]);
            assert(second.last() == docs[last]);
            assert(first =~= first.drop_last().push(first.last()));
            assert(second =~= second.drop_last().push(second.last()));
        } else {
            law_filter_idempotent(f, front, first, second);
        }
    }
}

/// Where the predicate gives on each document the verdict that `accepts`
/// names and a clone is a copy, a filter gives the documents that
/// `accepts` holds of, in their order, and no others.
pub proof fn law_filter_gives_the_accepted<T: Clone, F: Fn(&T) -> bool>(
    f: F,
    accepts: spec_fn(T) -> bool,
    docs: Seq<T>,
    picked: Seq<T>,
)
    requires
        selects(f, docs, picked),
        forall|i: int, verdict: bool|
            0 <= i < docs.len() && #[trigger] call_ensures(f, (&docs[i],), verdict) ==> verdict == accepts(
                docs[i],
            ),
        forall|i: int, copy: T| 0 <= i < docs.len() && #[trigger] cloned(docs[i], copy) ==> copy == docs[i],
    ensures
        picked == docs.filter(accepts),
    decreases docs.len(),
{
    reveal(Seq::filter);
    if docs.len() == 0 {
        assert(picked =~= docs.filter(accepts));
    } else {
        let front = docs.drop_last();
        let last = docs.len() - 1;
        assert(docs.last() == docs[last]);
        assert forall|i: int, verdict: bool|
            0 <= i < front.len() && #[trigger] call_ensures(f, (&front[i],), verdict) implies verdict == accepts(
            front[i],
        ) by {
            assert(front[i] == docs[i]);
        }
        assert forall|i: int, copy: T| 0 <= i < front.len() && #[trigger] cloned(front[i], copy) implies copy
            == front[i] by {
            assert(front[i] == docs[i]);
        }
        if call_ensures(f, (&docs[last],), false) && selects(f, front, picked) {
            law_filter_gives_the_accepted(f, accepts, front, picked);
        } else {
            law_filter_gives_the_accepted(f, accepts, front, picked.drop_last());
            assert(picked.last() == docs[last]);
            assert(picked =~= picked.drop_last().push(picked.last()));
        }
    }
}

/// Delete compaction, in the index: once the document at position `k` is
/// gone, the documents before it stand where they stood, those behind it
/// stand one position further up, and every other key still finds its
/// document.
pub proof fn law_delete_compacts<T: Document<T>>(docs: Seq<T>, k: int)
    requires
        distinct_keys(docs),
        0 <= k < docs.len(),
    ensures
        without(docs, docs[k].key()).len() == docs.len() - 1,
        forall|i: int| 0 <= i < k ==> without(docs, docs[k].key())[i] == docs[i],
        forall|i: int| k <= i < docs.len() - 1 ==> without(docs, docs[k].key())[i] == docs[i + 1],
        forall|key: u128| key != docs[k].key() ==> lookup(without(docs, docs[k].key()), key) == lookup(docs, key),
        !has_key(without(docs, docs[k].key()), docs[k].key()),
{
    let gone = docs[k].key();
    let after = without(docs, gone);
    lemma_position_of(docs, gone, k);
    lemma_without_distinct(docs, gone);
    assert(after == docs.remove(k));
    assert forall|key: u128| key != gone implies lookup(after, key) == lookup(docs, key) by {
        if has_key(docs, key) {
            let p = position_of(docs, key);
            assert(docs[p].key() == key);
            let q = if p < k { p } else { p - 1 };
            assert(after[q] == docs[p]);
            lemma_position_of(after, key, q);
        } else if has_key(after, key) {
            let q = position_of(after, key);
            assert(after[q].key() == key);
            let p = if q < k { q } else { q + 1 };
            assert(docs[p] == after[q]);
        }
    }
}

/// Delete compaction, in every backend: once an accepted delete of the
/// document at position `k` is committed, one document less is held, the
/// key of the deleted one finds nothing, and every other key finds what it
/// found before.
pub proof fn law_delete_drops_one<T: Document<T>>(state: State<T>, k: int)
    requires
        distinct_keys(state.docs),
        0 <= k < state.docs.len(),
        delete_step(state, state.docs[k].key()).answer.is_ok(),
    ensures
        commit_step(delete_step(state, state.docs[k].key()).state, true).docs == state.docs.remove(k),
        lookup(commit_step(delete_step(state, state.docs[k].key()).state, true).docs, state.docs[k].key())
            == None::<T>,
        forall|key: u128|
            key != state.docs[k].key() ==> lookup(
                commit_step(delete_step(state, state.docs[k].key()).state, true).docs,
                key,
            ) == lookup(state.docs, key),
{
    law_delete_compacts(state.docs, k);
    lemma_position_of(state.docs, state.docs[k].key(), k);
}

/// An insert or an update leaves every document under another key to be
/// found as before.
pub proof fn law_put_keeps_others<T: Document<T>>(docs: Seq<T>, doc: T, key: u128)
    requires
        distinct_keys(docs),
        key != doc.key(),
    ensures
        lookup(put(docs, doc), key) == lookup(docs, key),
        lookup(put(docs, doc), doc.key()) == Some(doc),
{
    let after = put(docs, doc);
    lemma_put_distinct(docs, doc);
    if has_key(docs, key) {
        let p = position_of(docs, key);
        assert(docs[p].key() == key);
        assert(after[p] == docs[p]);
        lemma_position_of(after, key, p);
    } else if has_key(after, key) {
        let q = position_of(after, key);
        assert(after[q].key() == key);
        if q < docs.len() {
            assert(docs[q].key() == key || after[q] == doc);
        }
    }
}

} // verus!
