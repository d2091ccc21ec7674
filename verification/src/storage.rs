//! What a collection asks of the storage medium.
//!
//! A collection performs no input or output. Each change to a persisted
//! collection yields the operations that bring the medium in line with it;
//! the caller carries them out in order and reports how that went.

use vstd::prelude::*;

verus! {

/// One operation on the storage medium.
#[derive(Debug, PartialEq, Eq)]
pub enum StorageOp {
    /// Cut the single file down to length zero.
    Truncate,
    /// Write `bytes` into the single file, starting at byte `offset`.
    WriteAt { offset: u64, bytes: Vec<u8> },
    /// Create the file `name` in the directory, or replace what it holds,
    /// with `bytes`.
    WriteFile { name: String, bytes: Vec<u8> },
    /// Remove the file `name` from the directory.
    RemoveFile { name: String },
}

/// The mathematical reading of a `StorageOp`.
pub enum Op {
    Truncate,
    WriteAt { offset: nat, bytes: Seq<u8> },
    WriteFile { name: Seq<char>, bytes: Seq<u8> },
    RemoveFile { name: Seq<char> },
}

impl View for StorageOp {
    type V = Op;

    open spec fn view(&self) -> Op {
        match *self {
            StorageOp::Truncate => Op::Truncate,
            StorageOp::WriteAt { offset, bytes } => Op::WriteAt { offset: offset as nat, bytes: bytes@ },
            StorageOp::WriteFile { name, bytes } => Op::WriteFile { name: name@, bytes: bytes@ },
            StorageOp::RemoveFile { name } => Op::RemoveFile { name: name@ },
        }
    }
}

/// The readings of a list of operations, one by one.
pub open spec fn ops_of(ops: Seq<StorageOp>) -> Seq<Op> {
    Seq::new(ops.len(), |i: int| ops[i]@)
}

/// What the single file holds after `op`, where it held `file` before.
///
/// A write beyond the end of the file leaves a gap of zero bytes, as a
/// positional write does.
pub open spec fn file_after(file: Seq<u8>, op: Op) -> Seq<u8> {
    match op {
        Op::Truncate => Seq::empty(),
        Op::WriteAt { offset, bytes } => {
            let end = offset + bytes.len();
            Seq::new(
                if end > file.len() { end } else { file.len() },
                |i: int|
                    if offset <= i < end {
                        bytes[i - offset]
                    } else if i < file.len() {
                        file[i]
                    } else {
                        0u8
                    },
            )
        },
        _ => file,
    }
}

/// What the single file holds after `ops`, carried out in order.
pub open spec fn file_after_all(file: Seq<u8>, ops: Seq<Op>) -> Seq<u8>
    decreases ops.len(),
{
    if ops.len() == 0 {
        file
    } else {
        file_after(file_after_all(file, ops.drop_last()), ops.last())
    }
}

} // verus!
