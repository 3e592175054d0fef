//! Edge cases: empty inputs, equal keys, saturating totals, and catalog
//! replacement.

use hecate_pkg::{
    Architecture, Package, PackageCache, PackageChecksum, PackageConfig, PackageEntry,
    PackageManager, Repository, RepositoryIndex, Version,
};

fn tiny_package(name: &str, major: u64) -> Package {
    Package {
        name: name.to_string(),
        version: Version::new(major, 0, 0),
        description: String::new(),
        author: String::new(),
        license: String::new(),
        homepage: None,
        repository: None,
        dependencies: Vec::new(),
        conflicts: Vec::new(),
        provides: Vec::new(),
        replaces: Vec::new(),
        categories: Vec::new(),
        keywords: Vec::new(),
        architecture: Architecture::All,
        size_bytes: 1,
        installed_size_bytes: 1,
        checksum: PackageChecksum { sha256: String::new(), blake3: String::new() },
        signature: None,
        build_date: 0,
    }
}

fn plain_repo(name: &str, priority: i32) -> Repository {
    Repository {
        name: name.to_string(),
        url: format!("https://example.invalid/{}", name),
        mirror_urls: Vec::new(),
        enabled: true,
        priority,
        gpg_check: false,
        gpg_key: None,
        last_update: None,
    }
}

fn single_index(repo: Repository, pkg: Package) -> RepositoryIndex {
    RepositoryIndex {
        repository: repo,
        packages: vec![PackageEntry { name: pkg.name.clone(), versions: vec![pkg] }],
        groups: Vec::new(),
        provides_index: Vec::new(),
    }
}

#[test]
fn test_clean_on_empty_cache() {
    let mut cache = PackageCache::new("/tmp/empty");
    let (removed, freed) = cache.clean(3);
    assert!(removed.is_empty());
    assert_eq!(freed, 0);
    let (pruned, pruned_freed) = cache.prune_to_size(0);
    assert!(pruned.is_empty());
    assert_eq!(pruned_freed, 0);
}

#[test]
fn test_cache_total_saturates() {
    let mut cache = PackageCache::new("/tmp/big");
    cache.note_artifact("a.pkg.tar.zst".to_string(), 1, u64::MAX);
    cache.note_artifact("b.pkg.tar.zst".to_string(), 2, u64::MAX);
    let stats = cache.get_stats();
    assert_eq!(stats.total_size, u64::MAX);
}

#[test]
fn test_equal_mtimes_are_all_kept_within_bound() {
    let mut cache = PackageCache::new("/tmp/ties");
    cache.note_artifact("a.pkg.tar.zst".to_string(), 5, 1);
    cache.note_artifact("b.pkg.tar.zst".to_string(), 5, 2);
    cache.note_artifact("c.pkg.tar.zst".to_string(), 5, 3);
    let (removed, _) = cache.clean(3);
    assert!(removed.is_empty());
    let (removed2, _) = cache.clean(2);
    assert_eq!(removed2.len(), 1);
}

#[test]
fn test_version_parse_at_the_integer_limit() {
    let max = format!("{}.0.0", u64::MAX);
    let v = Version::parse(&max).expect("the largest component parses");
    assert_eq!(v.major, u64::MAX);
    assert_eq!(v.to_string(), max);

    let over = "18446744073709551616.0.0";
    assert!(Version::parse(over).is_none());
}

#[test]
fn test_version_zero_renders_canonically() {
    assert_eq!(Version::new(0, 0, 0).to_string(), "0.0.0");
    assert_eq!(Version::parse("0.0.0"), Some(Version::new(0, 0, 0)));
}

#[test]
fn test_resyncing_a_repository_replaces_its_catalog() {
    let config = PackageConfig::default();
    let mut manager = PackageManager::new(config, Vec::new());

    manager
        .database
        .update_repository_index(single_index(plain_repo("main", 1), tiny_package("old", 1)))
        .unwrap();
    manager
        .database
        .update_repository_index(single_index(plain_repo("other", 2), tiny_package("kept", 1)))
        .unwrap();
    // a second sync of "main" replaces exactly its catalog
    manager
        .database
        .update_repository_index(single_index(plain_repo("main", 1), tiny_package("new", 2)))
        .unwrap();

    assert!(manager.find_package("old").is_none());
    assert!(manager.find_package("new").is_some());
    assert!(manager.find_package("kept").is_some());
    assert_eq!(manager.database.get_repository_indices().len(), 2);
}

#[test]
fn test_malformed_index_is_refused() {
    let config = PackageConfig::default();
    let mut manager = PackageManager::new(config, Vec::new());
    // the entry name and the version's own name disagree
    let bad = RepositoryIndex {
        repository: plain_repo("main", 1),
        packages: vec![PackageEntry {
            name: "alpha".to_string(),
            versions: vec![tiny_package("beta", 1)],
        }],
        groups: Vec::new(),
        provides_index: Vec::new(),
    };
    assert!(manager.database.update_repository_index(bad).is_err());
    assert!(manager.database.get_repository_indices().is_empty());
}

#[test]
fn test_search_empty_query_matches_names() {
    let config = PackageConfig::default();
    let mut manager = PackageManager::new(config, Vec::new());
    manager
        .database
        .update_repository_index(single_index(plain_repo("main", 1), tiny_package("abc", 1)))
        .unwrap();
    // every name contains the empty query
    assert_eq!(manager.search("").len(), 1);
}

#[test]
fn test_disabled_repository_index_is_refused() {
    let config = PackageConfig::default();
    let mut manager = PackageManager::new(config, Vec::new());
    let mut disabled = plain_repo("dark", 1);
    disabled.enabled = false;
    let index = single_index(disabled, tiny_package("pkg", 1));
    assert!(manager.database.update_repository_index(index).is_err());
    assert!(manager.database.get_repository_indices().is_empty());
    assert!(manager.find_package("pkg").is_none());
}

#[test]
fn test_clean_cache_sweeps_stale_catalogs() {
    let config = PackageConfig::default();
    let mut manager = PackageManager::new(config, Vec::new());
    let now: u64 = 10 * 86400;

    let mut stale = plain_repo("stale", 1);
    stale.last_update = Some(86400);
    let mut recent = plain_repo("recent", 2);
    recent.last_update = Some(9 * 86400);
    let unsynced = plain_repo("unsynced", 3);

    manager.database.update_repository_index(single_index(stale, tiny_package("a", 1))).unwrap();
    manager.database.update_repository_index(single_index(recent, tiny_package("b", 1))).unwrap();
    manager
        .database
        .update_repository_index(single_index(unsynced, tiny_package("c", 1)))
        .unwrap();

    let dropped = manager.database.clean_cache(2, now);
    assert_eq!(dropped, 1);
    assert_eq!(manager.database.get_repository_indices().len(), 2);
    assert!(manager.find_package("a").is_none());
    assert!(manager.find_package("b").is_some());
    assert!(manager.find_package("c").is_some());
}
