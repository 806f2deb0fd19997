//! A minimal content-addressed version-control object store.
//!
//! File contents are recorded as immutable blobs, directory snapshots are
//! assembled into trees, and snapshots are chained into a commit history.
//! Every object is addressed by the SHA-256 digest of its encoded bytes.

pub mod bytes;
pub mod chain;
pub mod codec;
pub mod commands;
pub mod commit;
pub mod error;
pub mod expand;
pub mod index;
pub mod objects;
pub mod store;
pub mod tree;

pub use codec::{decode, encode, from_hex, hash, to_hex, ObjectKind};
pub use commands::{Cli, Commands};
pub use commit::{
    build_commit, commit, log_commit, parse_commit, read_commit, CommitInfo, LogEntry, Signature,
};
pub use error::Error;
pub use index::{read_index, write_index, Index, IndexEntry};
pub use objects::{add_files, inspect_object, should_descend, SourceFile};
pub use store::{load_object, object_dir, object_path, save_object, ObjectStore, StoredObject};
pub use tree::create_tree_recur;
