//! The filesystem query model: the requests the four query operations
//! (`canonicalize`, `exists`, `metadata`, `symlink_metadata`) issue, the
//! metadata records and errors they come back with, and the verified
//! decision logic around them.
//!
//! The blocking system calls themselves are performed by the caller's
//! filesystem adapter on a separate execution resource; this module fixes
//! what is handed to it (an owned copy of the path, taken up front, so no
//! borrow has to live across a suspension) and what is made of every
//! possible outcome.

use vstd::prelude::*;
use crate::path::{Path, PathBuf};

verus! {

/// The kind of entity a metadata record describes.
pub enum FileKind {
    File,
    Dir,
    Symlink,
    Other,
}

/// A metadata record, as plain values: the kind of entity, its length
/// in bytes, and whether it is read-only.
pub struct Metadata {
    pub kind: FileKind,
    pub len: u64,
    pub readonly: bool,
}

/// The cause of a failed filesystem query, surfaced verbatim from the
/// operating system.
pub enum FsErrorKind {
    NotFound,
    PermissionDenied,
    NotADirectory,
    TooManySymlinks,
    Other,
}

/// A filesystem error: its cause, and the raw operating-system error
/// code when one was reported.
pub struct FsError {
    pub kind: FsErrorKind,
    pub os_code: Option<i32>,
}

/// The operation a filesystem request asks for.
pub enum QueryKind {
    /// Resolve the path against the real filesystem to an absolute,
    /// symlink-free form.
    Canonicalize,
    /// Metadata of the path's target, following symbolic links.
    Stat,
    /// Metadata of the path itself, not following a final symbolic link.
    StatNoFollow,
}

/// A filesystem request: the operation asked for and an owned copy of
/// the path it is about.
pub struct FsRequest {
    pub kind: QueryKind,
    pub path: PathBuf,
}

/// Builds the request a query operation hands to the filesystem adapter.
/// The path is copied into the request up front, so the request stays
/// valid however long the caller is suspended.
pub fn make_request(p: &Path, kind: QueryKind) -> (r: FsRequest)
    ensures
        r.path@ == p@,
        r.kind == kind,
{
    FsRequest { kind, path: p.to_path_buf() }
}

/// The existence verdict for a completed metadata query: `true` exactly
/// when the query succeeded. Every failure cause — a missing entity, a
/// broken symbolic link, an unreadable parent directory — coerces to
/// `false`; no error ever reaches the caller of `exists`.
pub fn exists_outcome(r: &Result<Metadata, FsError>) -> (b: bool)
    ensures
        b == (r is Ok),
{
    match r {
        Result::Ok(_) => true,
        Result::Err(_) => false,
    }
}

/// Classifies a raw operating-system error code into the error taxonomy:
/// 2 is a missing entity, 13 a permission denial, 20 a non-directory in
/// the middle of the path, 40 a symbolic-link cycle; everything else is
/// carried as `Other`.
pub fn kind_of_os_code(code: i32) -> (k: FsErrorKind)
    ensures
        code == 2 ==> k == FsErrorKind::NotFound,
        code == 13 ==> k == FsErrorKind::PermissionDenied,
        code == 20 ==> k == FsErrorKind::NotADirectory,
        code == 40 ==> k == FsErrorKind::TooManySymlinks,
        code != 2 && code != 13 && code != 20 && code != 40 ==> k == FsErrorKind::Other,
{
    if code == 2 {
        FsErrorKind::NotFound
    } else if code == 13 {
        FsErrorKind::PermissionDenied
    } else if code == 20 {
        FsErrorKind::NotADirectory
    } else if code == 40 {
        FsErrorKind::TooManySymlinks
    } else {
        FsErrorKind::Other
    }
}

} // verus!
