//! A minimal content-addressed version-control core.
//!
//! Objects (blobs, trees, commits) are stored under the hash of their tagged
//! bytes; references are mutable names for object ids. Everything here works
//! on values in memory: a repository is a pair of maps, the working
//! directory is a list of entries, and what an operation would write to the
//! working directory is a map from paths to contents. Each operation has a
//! contract over these models, and the modules `roundtrip` and `bound` prove
//! that a directory that was captured is restored as it was.

pub mod bytes;
pub mod error;
pub mod hash;
pub mod bytemap;
pub mod store;
pub mod commit;
pub mod tree;
pub mod flatten;
pub mod worktree;
pub mod resolve;
pub mod history;
pub mod roundtrip;
pub mod bound;
