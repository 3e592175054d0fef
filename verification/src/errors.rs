//! The error taxonomy. Each variant carries the offending package, file or
//! repository name.

use vstd::prelude::*;

verus! {

#[derive(Debug)]
pub enum PkgError {
    /// The named package is not installed.
    NotFound(String),
    /// The named package is already installed.
    AlreadyInstalled(String),
    /// The named dependency exists in no repository catalog.
    DependencyNotFound(String),
    /// Removal blocked: the named dependents still require the package.
    DependencyConflict { name: String, dependents: Vec<String> },
    /// A dependency's version requirement does not parse as a range.
    InvalidRequirement(String),
    /// An artifact's digest differs from the catalog entry.
    ChecksumMismatch(String),
    /// An artifact's signature was rejected by the verification oracle.
    SignatureInvalid(String),
    /// A cached artifact's compression stream cannot be opened.
    IntegrityCorrupt(String),
    /// An input/output failure reported by the caller.
    IoError(String),
    /// The ledger refused a mutation.
    DatabaseError(String),
    /// A repository index could not be refreshed.
    RepositorySyncError(String),
}

impl PkgError {
    /// A short human-readable description.
    pub fn message(&self) -> (r: String)
    {
        let mut s: String = match self {
            PkgError::NotFound(_) => "package is not installed: ".to_owned(),
            PkgError::AlreadyInstalled(_) => "package is already installed: ".to_owned(),
            PkgError::DependencyNotFound(_) => "dependency not found: ".to_owned(),
            PkgError::DependencyConflict { .. } => "package is required by others: ".to_owned(),
            PkgError::InvalidRequirement(_) => "invalid version requirement: ".to_owned(),
            PkgError::ChecksumMismatch(_) => "checksum mismatch: ".to_owned(),
            PkgError::SignatureInvalid(_) => "signature invalid: ".to_owned(),
            PkgError::IntegrityCorrupt(_) => "corrupt cache entry: ".to_owned(),
            PkgError::IoError(_) => "i/o failure: ".to_owned(),
            PkgError::DatabaseError(_) => "database failure: ".to_owned(),
            PkgError::RepositorySyncError(_) => "repository sync failure: ".to_owned(),
        };
        let subject: &String = match self {
            PkgError::NotFound(n) => n,
            PkgError::AlreadyInstalled(n) => n,
            PkgError::DependencyNotFound(n) => n,
            PkgError::DependencyConflict { name, .. } => name,
            PkgError::InvalidRequirement(n) => n,
            PkgError::ChecksumMismatch(n) => n,
            PkgError::SignatureInvalid(n) => n,
            PkgError::IntegrityCorrupt(n) => n,
            PkgError::IoError(n) => n,
            PkgError::DatabaseError(n) => n,
            PkgError::RepositorySyncError(n) => n,
        };
        s.append(subject.as_str());
        s
    }

}

} // verus!
