//! A content-addressed, versioned data store.
//!
//! Content is hashed and stored once under its hash; directory trees and
//! commits are themselves stored objects, so that equal subtrees collapse
//! into one object and history forms an immutable graph reachable from
//! mutable branch pointers.
//!
//! The library holds the state of a repository in memory and changes it by
//! whole operations; reading the working directory and the persisted state,
//! and writing them back, is left to the caller.
//!
//! - [`hash`], [`store`]: content hashes and the content store.
//! - [`codec`], [`object`], [`commit`]: the stored forms of blobs, trees and
//!   commits.
//! - [`path`], [`tree`], [`worktree`]: paths, directory trees, and snapshots
//!   of a directory as lists of files.
//! - [`index`], [`refs`], [`graph`]: the staging area, the branches and the
//!   head, and the walk through history.
//! - [`repo`], [`persist`]: the repository and its persisted form.
//! - [`canon`], [`integrity`], [`durable`], [`lookup`], [`order`]: what holds
//!   of trees and stores, stated and proved.

pub mod bytes;
pub mod canon;
pub mod codec;
pub mod commit;
pub mod durable;
pub mod error;
pub mod graph;
pub mod hash;
pub mod index;
pub mod integrity;
pub mod lookup;
pub mod object;
pub mod order;
pub mod path;
pub mod persist;
pub mod refs;
pub mod repo;
pub mod store;
pub mod tree;
pub mod worktree;
