//! An embedded document store: typed records kept under unique keys, with
//! caller-defined uniqueness rules and optional fixed-width persistence.

pub mod collection;
pub mod dir_based;
pub mod document;
pub mod error;
pub mod file_based;
pub mod file_based_collection;
pub mod file_image;
pub mod file_laws;
pub mod file_load;
pub mod file_plan;
pub mod in_memory_collection;
pub mod index;
pub mod key_index;
pub mod laws;
pub mod layout;
pub mod machine;
pub mod round_trip;
pub mod storage;

pub use crate::collection::Collection;
pub use crate::document::Document;
pub use crate::error::Error;
pub use crate::file_based_collection::FileBasedCollection;
pub use crate::in_memory_collection::InMemoryCollection;
pub use crate::machine::CollectionBackend;
pub use crate::storage::StorageOp;
