//! Block editor for declarative package lists.
//!
//! The library operates on a document held as a sequence of text lines. It
//! locates the `with pkgs; [` marker block, lists the package entries inside
//! it, and inserts or removes entries while preserving the surrounding
//! formatting. File handling, prompting and external commands live outside
//! the library; everything here is pure text logic with proved contracts.

use vstd::prelude::*;

pub mod block;
pub mod edit;
pub mod laws;
pub mod paths;
pub mod pkg;
pub mod text;

verus! {

/// An error of one editing operation on a document.
#[derive(Clone, Copy, Debug, PartialEq, Eq, Structural)]
pub enum EditError {
    /// The marker line or the closing bracket is absent.
    BlockNotFound,
    /// Insertion found the token as a substring of a block line.
    EntryAlreadyPresent,
    /// Removal found no entry equal to the token.
    EntryNotFound,
    /// A single-line block misses a bracket where one was expected.
    MalformedBlock,
}

/// An error of path resolution, separate from editing errors.
#[derive(Clone, Copy, Debug, PartialEq, Eq, Structural)]
pub enum PathError {
    /// The given path names neither an existing file nor a directory.
    PathNotFound,
    /// A directory was given and none of the candidate file names exists in it.
    NoCandidateFound,
    /// The path starts with `~/` but no home directory is available.
    HomeDirUnavailable,
    /// A repository was found but has no working directory.
    RepoWithoutWorkdir,
    /// The path is a file without a parent directory.
    ParentUnavailable,
}

} // verus!
