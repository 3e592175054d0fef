//! Value types shared with the update subsystem, and the snapshot backend
//! choice.

use vstd::prelude::*;
use crate::strutil::str_eq;

verus! {

/// Severity of a security update; higher variants outrank lower ones.
#[derive(Clone, Copy, PartialEq, Eq, PartialOrd, Ord, Structural, Debug, Hash)]
pub enum SecuritySeverity {
    Low,
    Medium,
    High,
    Critical,
}

/// The digest pair carried by an update artifact.
pub struct UpdateChecksum {
    pub sha256: String,
    pub blake3: String,
}

/// Which snapshot backend the root filesystem offers.
#[derive(Clone, Copy, PartialEq, Eq, Structural, Debug)]
pub enum SnapshotType {
    Btrfs,
    Lvm,
    Zfs,
    FileBased,
}

/// Manages pre-update snapshots of the root filesystem.
pub struct SnapshotManager {
    pub snapshot_type: SnapshotType,
    pub root_path: String,
}

impl SnapshotManager {
    /// A manager over the root filesystem with the detected backend.
    pub fn new(snapshot_type: SnapshotType) -> (m: SnapshotManager)
        ensures
            m.snapshot_type == snapshot_type,
            m.root_path@ == "/"@,
    {
        SnapshotManager { snapshot_type, root_path: "/".to_owned() }
    }

    /// Chooses the backend from the root filesystem type: btrfs and zfs
    /// snapshot natively, LVM is used when available, and plain file copies
    /// are the fallback.
    pub fn detect_from(fstype: &str, lvm_available: bool) -> (t: SnapshotType)
        ensures
            t == if fstype@ == "btrfs"@ {
                SnapshotType::Btrfs
            } else if fstype@ == "zfs"@ {
                SnapshotType::Zfs
            } else if lvm_available {
                SnapshotType::Lvm
            } else {
                SnapshotType::FileBased
            },
    {
        if str_eq(fstype, "btrfs") {
            SnapshotType::Btrfs
        } else if str_eq(fstype, "zfs") {
            SnapshotType::Zfs
        } else if lvm_available {
            SnapshotType::Lvm
        } else {
            SnapshotType::FileBased
        }
    }
}

} // verus!
