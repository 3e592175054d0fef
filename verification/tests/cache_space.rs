//! Cache tests: path mapping, eviction, pruning, age cleanup, statistics,
//! and integrity reporting.

use hecate_pkg::{Architecture, Package, PackageCache, PackageChecksum, Version};

fn artifact_package(name: &str, major: u64, minor: u64, patch: u64) -> Package {
    Package {
        name: name.to_string(),
        version: Version::new(major, minor, patch),
        description: String::new(),
        author: String::new(),
        license: String::new(),
        homepage: None,
        repository: None,
        dependencies: Vec::new(),
        conflicts: Vec::new(),
        provides: Vec::new(),
        replaces: Vec::new(),
        categories: Vec::new(),
        keywords: Vec::new(),
        architecture: Architecture::X86_64,
        size_bytes: 0,
        installed_size_bytes: 0,
        checksum: PackageChecksum { sha256: String::new(), blake3: String::new() },
        signature: None,
        build_date: 0,
    }
}

#[test]
fn test_cache_creation() {
    let cache = PackageCache::new("/tmp/hecate-test-cache");

    let stats = cache.get_stats();
    assert_eq!(stats.package_count, 0);
    assert_eq!(stats.total_size, 0);
}

#[test]
fn test_cache_paths() {
    let cache = PackageCache::new("/tmp/hecate-test-cache");
    let package = artifact_package("test", 1, 0, 0);

    let path = cache.get_package_path(&package);
    assert!(path.contains("test-1.0.0.pkg.tar.zst"));

    let delta_path = cache.get_delta_path(&package, "0.9.0");
    assert!(delta_path.contains("test-0.9.0-to-1.0.0.delta.zst"));
}

#[test]
fn test_package_path_exact() {
    let cache = PackageCache::new("/var/cache/hecate-pkg");
    let package = artifact_package("curl", 1, 0, 0);
    assert_eq!(
        cache.get_package_path(&package),
        "/var/cache/hecate-pkg/curl-1.0.0.pkg.tar.zst"
    );
}

#[test]
fn test_clean_keeps_newest() {
    let mut cache = PackageCache::new("/tmp/c");
    cache.note_artifact("old-1.0.0.pkg.tar.zst".to_string(), 100, 50);
    cache.note_artifact("new-1.0.0.pkg.tar.zst".to_string(), 200, 70);

    let (removed, freed) = cache.clean(1);
    assert_eq!(removed.len(), 1);
    assert_eq!(removed[0].name, "old-1.0.0.pkg.tar.zst");
    assert_eq!(freed, 50);
    assert_eq!(cache.entries().len(), 1);
    assert_eq!(cache.entries()[0].name, "new-1.0.0.pkg.tar.zst");
}

#[test]
fn test_clean_twice_frees_nothing() {
    let mut cache = PackageCache::new("/tmp/c");
    cache.note_artifact("a-1.0.0.pkg.tar.zst".to_string(), 100, 10);
    cache.note_artifact("b-1.0.0.pkg.tar.zst".to_string(), 200, 20);
    cache.note_artifact("c-1.0.0.pkg.tar.zst".to_string(), 300, 30);

    let (_, first_freed) = cache.clean(1);
    assert_eq!(first_freed, 30);

    let (removed_again, second_freed) = cache.clean(1);
    assert_eq!(second_freed, 0);
    assert!(removed_again.is_empty());
}

#[test]
fn test_prune_to_size_keeps_newest_entry() {
    let mut cache = PackageCache::new("/tmp/c");
    cache.note_artifact("a.pkg.tar.zst".to_string(), 100, 100);
    cache.note_artifact("b.pkg.tar.zst".to_string(), 200, 200);
    cache.note_artifact("c.pkg.tar.zst".to_string(), 300, 300);

    let (removed, freed) = cache.prune_to_size(250);
    // the two oldest go; the newest stays even though it exceeds the bound
    assert_eq!(removed.len(), 2);
    assert_eq!(removed[0].name, "a.pkg.tar.zst");
    assert_eq!(removed[1].name, "b.pkg.tar.zst");
    assert_eq!(freed, 300);
    assert_eq!(cache.entries().len(), 1);
    assert_eq!(cache.entries()[0].name, "c.pkg.tar.zst");
}

#[test]
fn test_prune_to_size_noop_within_bound() {
    let mut cache = PackageCache::new("/tmp/c");
    cache.note_artifact("a.pkg.tar.zst".to_string(), 100, 100);
    let (removed, freed) = cache.prune_to_size(100);
    assert!(removed.is_empty());
    assert_eq!(freed, 0);
}

#[test]
fn test_clean_old_uses_cutoff() {
    let mut cache = PackageCache::new("/tmp/c");
    let now: u64 = 10 * 86400;
    cache.note_artifact("ancient.pkg.tar.zst".to_string(), 86400, 11);
    cache.note_artifact("recent.pkg.tar.zst".to_string(), 9 * 86400, 22);

    let (removed, freed) = cache.clean_old(2, now);
    assert_eq!(removed.len(), 1);
    assert_eq!(removed[0].name, "ancient.pkg.tar.zst");
    assert_eq!(freed, 11);
    assert_eq!(cache.entries().len(), 1);
}

#[test]
fn test_cache_stats_split_deltas() {
    let mut cache = PackageCache::new("/tmp/c");
    cache.note_artifact("x-1.0.0.pkg.tar.zst".to_string(), 10, 100);
    cache.note_artifact("x-0.9.0-to-1.0.0.delta.zst".to_string(), 20, 5);

    let stats = cache.get_stats();
    assert_eq!(stats.package_count, 1);
    assert_eq!(stats.delta_count, 1);
    assert_eq!(stats.total_size, 105);
    assert_eq!(stats.cache_dir, "/tmp/c");
}

#[test]
fn test_verify_integrity_reports_bad_streams() {
    let mut cache = PackageCache::new("/tmp/c");
    cache.note_artifact("good.pkg.tar.zst".to_string(), 20, 1);
    cache.note_artifact("bad.pkg.tar.zst".to_string(), 10, 1);

    let good_bytes = zstd::encode_all(&b"hello world"[..], 3).expect("encoding succeeds");
    let bad_bytes = vec![1u8, 2, 3, 4];

    // entries are newest first: good (mtime 20) then bad (mtime 10)
    let corrupt = cache.verify_integrity(&vec![good_bytes, bad_bytes]);
    assert_eq!(corrupt, vec!["bad.pkg.tar.zst".to_string()]);
    // nothing was deleted
    assert_eq!(cache.entries().len(), 2);
}
