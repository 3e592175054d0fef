//! Digest, download-planning, configuration-reconciliation and image-helper
//! tests.

use hecate_pkg::manager::ConfigAction;
use hecate_pkg::{
    Architecture, BodyAction, DownloadManager, InstalledFile, Package, PackageChecksum,
    PackageConfig, PackageManager, PkgError, ResumeAction, SnapshotManager, SnapshotType, Version,
};
use sha2::Digest;

fn checked_package(name: &str, sha256: String, blake3: String) -> Package {
    Package {
        name: name.to_string(),
        version: Version::new(1, 0, 0),
        description: String::new(),
        author: String::new(),
        license: String::new(),
        homepage: None,
        repository: None,
        dependencies: Vec::new(),
        conflicts: Vec::new(),
        provides: Vec::new(),
        replaces: Vec::new(),
        categories: Vec::new(),
        keywords: Vec::new(),
        architecture: Architecture::All,
        size_bytes: 0,
        installed_size_bytes: 0,
        checksum: PackageChecksum { sha256, blake3 },
        signature: None,
        build_date: 0,
    }
}

#[test]
fn test_artifact_digests_match_reference() {
    let data = b"hello world";
    let sha = hex::encode(sha2::Sha256::digest(data));
    let blake = hex::encode(blake3::hash(data).as_bytes());

    let manager = PackageManager::new(PackageConfig::default(), Vec::new());
    let good = checked_package("ok", sha.clone(), blake.clone());
    assert!(manager.verify_artifact(&good, data, true).is_ok());

    let bad = checked_package("bad", sha, "0000".to_string());
    let err = manager.verify_artifact(&bad, data, true).unwrap_err();
    assert!(matches!(err, PkgError::ChecksumMismatch(n) if n == "bad"));
}

#[test]
fn test_empty_input_sha256_is_the_known_constant() {
    let sha = hex::encode(sha2::Sha256::digest(b""));
    assert_eq!(sha, "e3b0c44298fc1c149afbf4c8996fb92427ae41e4649b934ca495991b7852b855");
    let blake = hex::encode(blake3::hash(b"").as_bytes());

    let manager = PackageManager::new(PackageConfig::default(), Vec::new());
    let pkg = checked_package("empty", sha, blake);
    assert!(manager.verify_artifact(&pkg, b"", true).is_ok());
}

#[test]
fn test_signature_oracle_is_consulted() {
    let data = b"payload";
    let sha = hex::encode(sha2::Sha256::digest(data));
    let blake = hex::encode(blake3::hash(data).as_bytes());

    let manager = PackageManager::new(PackageConfig::default(), Vec::new());
    let mut pkg = checked_package("signed", sha, blake);
    pkg.signature = Some("sig-bytes".to_string());

    assert!(manager.verify_artifact(&pkg, data, true).is_ok());
    let err = manager.verify_artifact(&pkg, data, false).unwrap_err();
    assert!(matches!(err, PkgError::SignatureInvalid(_)));
}

#[test]
fn test_resume_decisions() {
    assert_eq!(DownloadManager::resume_action(None, 100), ResumeAction::Fresh);
    assert_eq!(DownloadManager::resume_action(Some(0), 100), ResumeAction::Fresh);
    assert_eq!(DownloadManager::resume_action(Some(40), 100), ResumeAction::ResumeFrom(40));
    assert_eq!(DownloadManager::resume_action(Some(100), 100), ResumeAction::AlreadyComplete);
    assert_eq!(DownloadManager::resume_action(Some(150), 100), ResumeAction::AlreadyComplete);
}

#[test]
fn test_response_decisions_detect_ignored_range() {
    // a server honouring the range
    assert_eq!(DownloadManager::response_action(206, 40), BodyAction::Append);
    // a server ignoring the range: truncate and restart, never blind-append
    assert_eq!(DownloadManager::response_action(200, 40), BodyAction::Restart);
    // a fresh fetch
    assert_eq!(DownloadManager::response_action(200, 0), BodyAction::Append);
    // failures
    assert_eq!(DownloadManager::response_action(404, 0), BodyAction::Fail);
    assert_eq!(DownloadManager::response_action(500, 10), BodyAction::Fail);
}

#[test]
fn test_download_slots_are_bounded() {
    let mut dm = DownloadManager::new(2);
    assert!(dm.try_begin());
    assert!(dm.try_begin());
    assert!(!dm.try_begin());
    dm.finish();
    assert!(dm.try_begin());
}

#[test]
fn test_config_backup_plan_selects_etc() {
    let files = vec![
        InstalledFile {
            path: "/etc/app.conf".to_string(),
            checksum: String::new(),
            size: 1,
            permissions: 0o644,
        },
        InstalledFile {
            path: "/usr/bin/app".to_string(),
            checksum: String::new(),
            size: 1,
            permissions: 0o755,
        },
    ];
    let plan = PackageManager::config_backup_plan(&files);
    assert_eq!(plan.len(), 1);
    assert_eq!(plan[0].0, "/etc/app.conf");
    assert_eq!(plan[0].1, "/etc/app.conf.hecate-backup");
}

#[test]
fn test_reconcile_config_keeps_both_when_changed() {
    assert_eq!(
        PackageManager::reconcile_config(b"old contents", b"new contents"),
        ConfigAction::KeepBoth
    );
    assert_eq!(
        PackageManager::reconcile_config(b"same", b"same"),
        ConfigAction::DiscardBackup
    );
    assert_eq!(PackageManager::hecate_new_path("/etc/app.conf"), "/etc/app.conf.hecate-new");
}

#[test]
fn test_snapshot_backend_detection() {
    assert_eq!(SnapshotManager::detect_from("btrfs", false), SnapshotType::Btrfs);
    assert_eq!(SnapshotManager::detect_from("zfs", true), SnapshotType::Zfs);
    assert_eq!(SnapshotManager::detect_from("ext4", true), SnapshotType::Lvm);
    assert_eq!(SnapshotManager::detect_from("ext4", false), SnapshotType::FileBased);

    let m = SnapshotManager::new(SnapshotType::Btrfs);
    assert_eq!(m.root_path, "/");
}
