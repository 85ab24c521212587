//! What the library asks of a store of notes and of a resolver of conflicts.
use crate::error::ZettelError;
use crate::types::{CommitHash, ConflictFile, DiffKind, ResolvedFile};
use vstd::prelude::*;

verus! {

/// Reading notes.
pub trait ZettelSource {
    fn list_zettels(&self) -> Result<Vec<String>, ZettelError>;

    fn read_file(&self, path: &str) -> Result<String, ZettelError>;

    fn head_oid(&self) -> Result<CommitHash, ZettelError>;

    /// The paths that changed between two trees, each with what happened to it.
    /// An error where either tree cannot be reached any more.
    fn diff_paths(&self, old_oid: &str, new_oid: &str) -> Result<
        Vec<(DiffKind, String)>,
        ZettelError,
    >;
}

/// Reading and writing notes.
pub trait ZettelStore: ZettelSource {
    fn commit_file(&self, path: &str, content: &str, msg: &str) -> Result<CommitHash, ZettelError>;

    fn commit_files(&self, files: &[(&str, &str)], msg: &str) -> Result<CommitHash, ZettelError>;

    fn delete_file(&self, path: &str, msg: &str) -> Result<CommitHash, ZettelError>;

    fn delete_files(&self, paths: &[&str], msg: &str) -> Result<CommitHash, ZettelError>;

    fn commit_batch(&self, writes: &[(&str, &str)], deletes: &[&str], msg: &str) -> Result<
        CommitHash,
        ZettelError,
    >;
}

/// Resolving conflicts by a strategy.
pub trait ConflictResolver {
    fn resolve_conflicts(&self, conflicts: Vec<ConflictFile>, strategy: Option<&str>) -> Result<
        Vec<ResolvedFile>,
        ZettelError,
    >;
}

} // verus!
