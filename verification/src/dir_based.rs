//! What the directory backend keeps: one file per document, named by the
//! document's key.

use crate::collection::Collection;
use crate::machine::{dir_write_plan, State};
use crate::document::{lemma_parse_slice, parse, put, Document};
use crate::error::Error;
use crate::file_plan::Plan;
use crate::index::DocumentIndex;
use crate::storage::{ops_of, Op, StorageOp};
use uuid::Uuid;
use vstd::prelude::*;
use vstd::string::{StrSliceExecFns, StringExecFns};

verus! {

/// The lower-case hexadecimal digit for a value below sixteen.
pub open spec fn hex_digit(value: nat) -> char {
    seq!['0', '1', '2', '3', '4', '5', '6', '7', '8', '9', 'a', 'b', 'c', 'd', 'e', 'f'][value as int]
}

/// The last `count` hexadecimal digits of `value`, the most significant
/// first.
pub open spec fn hex_text(value: nat, count: nat) -> Seq<char>
    decreases count,
{
    if count == 0 {
        Seq::empty()
    } else {
        hex_text(value / 16, (count - 1) as nat).push(hex_digit(value % 16))
    }
}

/// The text of the identifier whose 128 bits are `key`: its 32 hexadecimal
/// digits in lower case, the most significant first, in groups of 8, 4, 4,
/// 4 and 12 with a hyphen between two groups.
pub open spec fn uuid_text(key: u128) -> Seq<char> {
    let digits = hex_text(key as nat, 32);
    digits.subrange(0, 8) + seq!['-'] + digits.subrange(8, 12) + seq!['-'] + digits.subrange(12, 16) + seq![
        '-',
    ] + digits.subrange(16, 20) + seq!['-'] + digits.subrange(20, 32)
}

/// `Uuid::from_u128` and the `Display` of the `Uuid`: the identifier that
/// holds the 128 bits of `key`, most significant byte first, written in
/// the hyphenated lower-case form.
#[verifier::external_body]
pub(crate) fn key_text(key: u128) -> (text: String)
    ensures
        text@ == uuid_text(key),
{
    Uuid::from_u128(key).to_string()
}

/// As many digits come out as are asked for.
pub proof fn lemma_hex_text_len(value: nat, count: nat)
    ensures
        hex_text(value, count).len() == count,
    decreases count,
{
    if count > 0 {
        lemma_hex_text_len(value / 16, (count - 1) as nat);
    }
}

/// The file of a document is named as a document's file: the text of a key
/// has 36 characters and the suffix stands behind it.
pub proof fn lemma_file_name_names_document(key: u128)
    ensures
        uuid_text(key).len() == 36,
        names_document(file_name(key)),
{
    lemma_hex_text_len(key as nat, 32);
    let name = file_name(key);
    assert(name.subrange(name.len() - 5, name.len() as int) =~= json_suffix());
}

/// What ends the name of a document's file.
pub open spec fn json_suffix() -> Seq<char> {
    seq!['.', 'j', 's', 'o', 'n']
}

/// The name of the file that holds the document with the key `key`.
pub open spec fn file_name(key: u128) -> Seq<char> {
    uuid_text(key) + json_suffix()
}

/// Whether a file of this name holds a document: the name ends in `.json`
/// and has something before that.
pub open spec fn names_document(name: Seq<char>) -> bool {
    name.len() > 5 && name.subrange(name.len() - 5, name.len() as int) == json_suffix()
}

/// A file of the directory, as it was read.
pub struct StoredFile {
    /// The name of the file within the directory.
    pub name: String,
    /// What the file holds.
    pub bytes: Vec<u8>,
}

/// The documents after the files `files` have been read into `docs`, in
/// their order: each file that is named as a document's and holds a
/// serialized document gives that document; the others give nothing.
pub open spec fn dir_loaded<T: Document<T>>(docs: Seq<T>, files: Seq<StoredFile>) -> Seq<T>
    decreases files.len(),
{
    if files.len() == 0 {
        docs
    } else {
        let before = dir_loaded(docs, files.drop_last());
        let file = files.last();
        match parse::<T>(file.bytes@) {
            Some(doc) => if names_document(file.name@) {
                put(before, doc)
            } else {
                before
            },
            None => before,
        }
    }
}

/// The name of a document's file, given the text of the document's key.
pub fn with_json_suffix(stem: String) -> (name: String)
    ensures
        name@ == stem@ + json_suffix(),
{
    let mut name = stem;
    proof {
        reveal_strlit(".json");
    }
    name.append(".json");
    assert(name@ =~= stem@ + json_suffix());
    name
}

/// The name of the file that holds the document with the key `key`.
pub fn document_file_name(key: u128) -> (name: String)
    ensures
        name@ == file_name(key),
{
    with_json_suffix(key_text(key))
}

/// Whether a file of the name `name` holds a document.
pub fn has_json_extension(name: &str) -> (yes: bool)
    ensures
        yes == names_document(name@),
{
    let n = name.unicode_len();
    if n <= 5 {
        return false;
    }
    let yes = name.get_char(n - 5) == '.' && name.get_char(n - 4) == 'j' && name.get_char(n - 3) == 's'
        && name.get_char(n - 2) == 'o' && name.get_char(n - 1) == 'n';
    proof {
        let tail = name@.subrange(n - 5, n as int);
        if yes {
            assert(tail =~= json_suffix());
        } else {
            if tail == json_suffix() {
                assert(tail[0] == '.' && tail[1] == 'j' && tail[2] == 's' && tail[3] == 'o' && tail[4] == 'n');
            }
        }
    }
    yes
}

/// Reads the files `files` into `index`, in their order.
pub fn load_files<T: Document<T>>(index: &mut DocumentIndex<T>, files: &Vec<StoredFile>)
    requires
        old(index).wf(),
    ensures
        final(index).wf(),
        final(index)@ == dir_loaded(old(index)@, files@),
{
    let mut i: usize = 0;
    assert(files@.take(0) =~= Seq::<StoredFile>::empty());
    while i < files.len()
        invariant
            i <= files@.len(),
            index.wf(),
            index@ == dir_loaded(old(index)@, files@.take(i as int)),
        decreases files@.len() - i,
    {
        let file = &files[i];
        let bytes = file.bytes.as_slice();
        proof {
            assert(files@.take(i + 1).drop_last() =~= files@.take(i as int));
            assert(files@.take(i + 1).last() == files@[i as int]);
            lemma_parse_slice::<T>(bytes);
        }
        if has_json_extension(file.name.as_str()) {
            match T::from_json(bytes) {
                Some(doc) => {
                    index.insert(doc);
                },
                None => {},
            }
        }
        i = i + 1;
    }
    assert(files@.take(i as int) =~= files@);
}

impl<T: Document<T>> Collection<T> {
    /// Reads the files of the directory, as `files` lists them, into the
    /// collection. A collection without a path reads nothing.
    pub fn load_structs_from_dir(&mut self, files: &Vec<StoredFile>)
        requires
            old(self).wf(),
        ensures
            final(self).wf(),
            final(self).spec_path() == old(self).spec_path(),
            final(self).state() == (State {
                docs: if old(self).spec_path().is_none() {
                    old(self)@
                } else {
                    dir_loaded(old(self)@, files@)
                },
                staged: None,
                ..old(self).state()
            }),
    {
        proof {
            old(self).lemma_parts();
        }
        self.staged = None;
        if self.path.is_some() {
            load_files(&mut self.documents, files);
        }
        proof {
            self.lemma_parts();
        }
    }

    /// The operations that keep `doc` in the directory.
    pub fn write_to_dir(&self, doc: &T) -> (answer: Result<Vec<StorageOp>, Error>)
        ensures
            match answer {
                Ok(ops) => dir_write_plan(*doc, self.state().slot).is_ok() && ops_of(ops@) == dir_write_plan(
                    *doc,
                    self.state().slot,
                ).unwrap().ops,
                Err(e) => dir_write_plan(*doc, self.state().slot) == Err::<Plan, Error>(e),
            },
    {
        proof {
            self.lemma_parts();
        }
        match doc.to_json() {
            Some(bytes) => {
                let name = document_file_name(doc.primary_key());
                let mut ops: Vec<StorageOp> = Vec::new();
                ops.push(StorageOp::WriteFile { name, bytes });
                assert(ops_of(ops@) =~= seq![Op::WriteFile { name: file_name(doc.key()), bytes: bytes@ }]);
                Ok(ops)
            },
            None => Err(Error::SerializationFailure),
        }
    }

    /// The operations that take the document with the key `pk` out of the
    /// directory.
    pub fn remove_from_dir(&self, pk: &u128) -> (ops: Vec<StorageOp>)
        ensures
            ops_of(ops@) == seq![Op::RemoveFile { name: file_name(*pk) }],
    {
        let name = document_file_name(*pk);
        let mut ops: Vec<StorageOp> = Vec::new();
        ops.push(StorageOp::RemoveFile { name });
        assert(ops_of(ops@) =~= seq![Op::RemoveFile { name: file_name(*pk) }]);
        ops
    }
}

} // verus!
