//! Mirrors one directory tree onto another.
//!
//! Two trees are listed, each into a [`snapshot::Snapshot`] of its files.
//! A file is known by its relative path, its name and its size; what the
//! files hold is never read. From the two snapshots follow the files that
//! only the source has, which are copied, and the files that only the
//! destination has, which are deleted: the [`plan::SyncPlan`]. The plan is
//! carried out in two phases, every deletion before any copy.
//!
//! The library decides and never touches the file system. A tree is listed
//! by a [`crawl::Crawler`], which names the directory to read next and
//! takes in what the read gave. A plan is carried out by an
//! [`executor::Executor`], which names the next action and takes in how it
//! went. Whoever drives them does the reading, the asking, the deleting
//! and the copying.
//!
//! - [`path`]: relative paths as text.
//! - [`listing`]: one file, and when two listings stand for the same file.
//! - [`snapshot`]: the files of one tree, no relative path twice.
//! - [`crawl`]: from reads of directories to a snapshot.
//! - [`tree`]: a tree as a value, and what a crawl of it finds.
//! - [`diff`]: what one snapshot holds and the other lacks.
//! - [`plan`]: the copy set and the delete set.
//! - [`executor`]: from a plan to actions, and from failures to the end of
//!   the run.
//! - [`failure`]: the kinds of failure that are told apart.

pub mod crawl;
pub mod diff;
pub mod executor;
pub mod failure;
pub mod listing;
pub mod path;
pub mod plan;
pub mod snapshot;
pub mod tree;
