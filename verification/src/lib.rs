//! Resolution and retrieval of Java build artifacts: coordinates, the layout of
//! the local repository, remote addresses, manifests and the resolution frontier.
//!
//! Nothing here touches the file system or the network. The library derives
//! paths and URLs, reads manifests, and decides what a resolution does next;
//! whoever uses it fetches and saves.

use vstd::prelude::*;

pub mod canonical;
pub mod error;
pub mod listing;
pub mod manifest;
pub mod markup;
pub mod remote;
pub mod repository;
pub mod resolver;
pub mod text;
pub mod urls;
pub mod utils;

verus! {

/// The outcome of an operation of the library that can fail.
pub type RepositoryOperationResult<T> = Result<T, error::RepositoryOperationError>;

} // verus!
