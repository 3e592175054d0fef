//! Verified core of the Hecate package manager.
//!
//! The crate models a package manager's ledger of installed packages, its
//! artifact cache, its download planning, and its dependency resolution, and
//! proves the contracts that the surrounding tooling relies on.

pub mod cache;
pub mod database;
pub mod download;
pub mod errors;
pub mod imaging;
pub mod integrity;
pub mod manager;
pub mod signing;
pub mod strutil;
pub mod types;
pub mod updates;
pub mod version;

pub use cache::{CacheEntry, CacheStats, PackageCache};
pub use database::{
    DatabaseStats, PackageDatabase, TransactionRecord, TransactionStatus, TransactionType,
};
pub use download::{BodyAction, DownloadManager, ResumeAction};
pub use errors::PkgError;
pub use imaging::{
    Branding, ComponentInjector, Components, HecateConfig, IsoManager, Metadata,
    NativeIsoBuilder, Optimizations, Scripts,
};
pub use manager::PackageManager;
pub use signing::{FileChecksums, FileSignature, SignaturePurpose, SignerInfo};
pub use strutil::str_eq;
pub use types::{
    Architecture, Dependency, GroupEntry, InstalledFile, InstalledPackage, InstallReason,
    Package, PackageChecksum, PackageConfig, PackageEntry, ProvidesEntry, Repository,
    RepositoryIndex,
};
pub use updates::{SecuritySeverity, SnapshotManager, SnapshotType, UpdateChecksum};
pub use version::Version;
