//! Ledger tests: installation round trips, dependents, orphans, removal,
//! the audit log, and statistics.

use hecate_pkg::{
    Architecture, Dependency, InstalledFile, InstalledPackage, InstallReason, Package,
    PackageChecksum, PackageDatabase, PkgError, TransactionStatus, TransactionType, Version,
};

fn ledger_package(name: &str, deps: Vec<Dependency>, size: u64) -> Package {
    Package {
        name: name.to_string(),
        version: Version::new(1, 0, 0),
        description: String::new(),
        author: String::new(),
        license: String::new(),
        homepage: None,
        repository: None,
        dependencies: deps,
        conflicts: Vec::new(),
        provides: Vec::new(),
        replaces: Vec::new(),
        categories: Vec::new(),
        keywords: Vec::new(),
        architecture: Architecture::All,
        size_bytes: size,
        installed_size_bytes: size,
        checksum: PackageChecksum { sha256: String::new(), blake3: String::new() },
        signature: None,
        build_date: 0,
    }
}

fn installed(name: &str, deps: Vec<Dependency>, reason: InstallReason) -> InstalledPackage {
    InstalledPackage {
        package: ledger_package(name, deps, 10),
        install_date: 1,
        install_path: "/".to_string(),
        files: vec![
            InstalledFile {
                path: format!("/usr/bin/{}", name),
                checksum: String::new(),
                size: 5,
                permissions: 0o755,
            },
            InstalledFile {
                path: format!("/usr/share/{}", name),
                checksum: String::new(),
                size: 5,
                permissions: 0o644,
            },
        ],
        install_reason: reason,
    }
}

fn dep_on(name: &str) -> Dependency {
    Dependency {
        name: name.to_string(),
        version_req: ">=1.0".to_string(),
        optional: false,
        build_only: false,
    }
}

#[test]
fn test_database_creation() {
    let db = PackageDatabase::new();

    assert!(!db.is_installed("test-package"));

    let stats = db.get_stats();
    assert_eq!(stats.installed_packages, 0);
}

#[test]
fn test_record_then_get_round_trip() {
    let mut db = PackageDatabase::new();
    let rec = installed("curl", vec![dep_on("zlib")], InstallReason::Explicit);
    db.record_installation(rec).expect("fresh name must insert");

    let got = db.get_installed_package("curl").expect("inserted row must be found");
    assert_eq!(got.package.name, "curl");
    assert_eq!(got.package.version, Version::new(1, 0, 0));
    assert_eq!(got.files.len(), 2);
    assert_eq!(got.package.dependencies.len(), 1);
}

#[test]
fn test_record_twice_is_refused() {
    let mut db = PackageDatabase::new();
    db.record_installation(installed("curl", vec![], InstallReason::Explicit)).unwrap();
    let again = db.record_installation(installed("curl", vec![], InstallReason::Explicit));
    assert!(matches!(again, Err(PkgError::DatabaseError(_))));
    assert_eq!(db.get_installed_packages().len(), 1);
}

#[test]
fn test_get_dependents_exact() {
    let mut db = PackageDatabase::new();
    db.record_installation(installed("libc", vec![], InstallReason::Dependency)).unwrap();
    db.record_installation(installed("app", vec![dep_on("libc")], InstallReason::Explicit))
        .unwrap();
    db.record_installation(installed("other", vec![dep_on("zlib")], InstallReason::Explicit))
        .unwrap();

    let deps = db.get_dependents("libc");
    assert_eq!(deps, vec!["app".to_string()]);
    assert!(db.get_dependents("app").is_empty());
}

#[test]
fn test_find_orphans_never_explicit() {
    let mut db = PackageDatabase::new();
    db.record_installation(installed("standalone", vec![], InstallReason::Explicit)).unwrap();
    db.record_installation(installed("leftover", vec![], InstallReason::Dependency)).unwrap();
    db.record_installation(installed("needed", vec![], InstallReason::Dependency)).unwrap();
    db.record_installation(installed("app", vec![dep_on("needed")], InstallReason::Explicit))
        .unwrap();

    let orphans = db.find_orphans();
    assert_eq!(orphans, vec!["leftover".to_string()]);
    assert!(!orphans.contains(&"standalone".to_string()));
}

#[test]
fn test_mark_removed_deletes_all_rows() {
    let mut db = PackageDatabase::new();
    db.record_installation(installed("a", vec![], InstallReason::Explicit)).unwrap();
    db.record_installation(installed("b", vec![], InstallReason::Explicit)).unwrap();

    db.mark_removed("a").expect("installed package must be removable");
    assert!(!db.is_installed("a"));
    assert!(db.is_installed("b"));

    let miss = db.mark_removed("a");
    assert!(matches!(miss, Err(PkgError::NotFound(_))));
}

#[test]
fn test_transaction_lifecycle() {
    let mut db = PackageDatabase::new();
    let id = db
        .begin_transaction(TransactionType::Install, "curl", None, Some("1.0.0"))
        .expect("audit record must open");
    assert_eq!(id, 0);

    db.complete_transaction(id).expect("known id must complete");
    let id2 = db
        .begin_transaction(TransactionType::Remove, "curl", Some("1.0.0"), None)
        .expect("audit record must open");
    assert_eq!(id2, 1);
    db.fail_transaction(id2, "disk full").expect("known id must fail");

    assert!(db.complete_transaction(77).is_err());
}

#[test]
fn test_stats_counts() {
    let mut db = PackageDatabase::new();
    db.record_installation(installed("a", vec![], InstallReason::Explicit)).unwrap();
    db.record_installation(installed("b", vec![], InstallReason::Dependency)).unwrap();
    db.record_installation(installed("c", vec![dep_on("b")], InstallReason::Explicit)).unwrap();

    let stats = db.get_stats();
    assert_eq!(stats.installed_packages, 3);
    assert_eq!(stats.explicit_packages, 2);
    assert_eq!(stats.dependency_packages, 1);
    assert_eq!(stats.orphaned_packages, 0);
    assert_eq!(stats.total_installed_size, 30);
    assert_eq!(stats.repositories, 0);
    assert_eq!(stats.available_packages, 0);
}

#[test]
fn test_transaction_status_variants() {
    let mut db = PackageDatabase::new();
    let id = db.begin_transaction(TransactionType::Upgrade, "x", Some("1.0.0"), Some("2.0.0"))
        .unwrap();
    db.complete_transaction(id).unwrap();
    let _ = TransactionStatus::Pending;
    let _ = TransactionStatus::Failed;
}
