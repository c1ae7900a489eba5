//! An embedded transactional key-value store: typed indexes over keyspaces,
//! forks with read-your-writes, atomically merged patches, a catalog that keeps
//! the type of every index, and staged migrations flushed in one patch.
pub mod address;
pub mod byte_map;
pub mod catalog;
pub mod codec;
pub mod db;
pub mod engine;
pub mod entry;
pub mod error;
pub mod group;
pub mod iter;
pub mod key_set;
pub mod lazy;
pub mod list;
pub mod map;
pub mod migration;
pub mod options;
pub mod order;
pub mod sparse_list;

pub use address::IndexAddress;
pub use catalog::{FromAddress, IndexMetadata, IndexType};
pub use codec::{BinaryKey, BinaryValue};
pub use db::{Fork, Patch, RawAccess, Snapshot, TemporaryDB};
pub use entry::Entry;
pub use error::{Error, ErrorKind};
pub use group::Group;
pub use iter::{Entries, IndexIterator, Keys, Values};
pub use key_set::KeySetIndex;
pub use lazy::Lazy;
pub use list::ListIndex;
pub use map::MapIndex;
pub use migration::{Migration, Prefixed, create_tombstone, flush_migration};
pub use options::{CompressionType, DBOptions};
pub use sparse_list::SparseListIndex;
