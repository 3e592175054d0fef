//! Manager tests: search, priority, resolution, install and remove
//! workflows, update checks, and artifact verification.

use hecate_pkg::{
    Architecture, Dependency, GroupEntry, InstalledFile, InstallReason, Package, PackageChecksum,
    PackageConfig, PackageEntry, PackageManager, PkgError, Repository, RepositoryIndex, Version,
};

fn catalog_package(name: &str, major: u64, minor: u64, patch: u64) -> Package {
    Package {
        name: name.to_string(),
        version: Version::new(major, minor, patch),
        description: String::new(),
        author: String::new(),
        license: String::new(),
        homepage: None,
        repository: None,
        dependencies: Vec::new(),
        conflicts: Vec::new(),
        provides: Vec::new(),
        replaces: Vec::new(),
        categories: Vec::new(),
        keywords: Vec::new(),
        architecture: Architecture::All,
        size_bytes: 1,
        installed_size_bytes: 1,
        checksum: PackageChecksum { sha256: String::new(), blake3: String::new() },
        signature: None,
        build_date: 0,
    }
}

fn repo(name: &str, priority: i32) -> Repository {
    Repository {
        name: name.to_string(),
        url: format!("https://example.invalid/{}", name),
        mirror_urls: Vec::new(),
        enabled: true,
        priority,
        gpg_check: false,
        gpg_key: None,
        last_update: None,
    }
}

fn index_of(repository: Repository, packages: Vec<Package>) -> RepositoryIndex {
    let mut entries: Vec<PackageEntry> = Vec::new();
    for p in packages {
        entries.push(PackageEntry { name: p.name.clone(), versions: vec![p] });
    }
    RepositoryIndex {
        repository,
        packages: entries,
        groups: Vec::new(),
        provides_index: Vec::new(),
    }
}

fn fresh_manager() -> PackageManager {
    let config = PackageConfig {
        root_dir: "/tmp/hecate-root".to_string(),
        db_path: "/tmp/hecate-root/db".to_string(),
        cache_dir: "/tmp/hecate-root/cache".to_string(),
        log_dir: "/tmp/hecate-root/logs".to_string(),
        ..Default::default()
    };
    PackageManager::new(config, Vec::new())
}

#[test]
fn test_package_manager_creation() {
    let manager = fresh_manager();
    assert!(manager.database.get_installed_packages().is_empty());
    assert!(manager.repositories.is_empty());
}

#[test]
fn test_search_packages() {
    let manager = fresh_manager();
    let results = manager.search("test");

    // a fresh database yields no results
    assert_eq!(results.len(), 0);
}

#[test]
fn test_search_matches_name_description_keywords() {
    let mut manager = fresh_manager();
    let mut editor = catalog_package("editor", 1, 0, 0);
    editor.description = "A Modal Text Editor".to_string();
    let mut tool = catalog_package("tool", 1, 0, 0);
    tool.keywords = vec!["textutils".to_string()];
    let other = catalog_package("other", 1, 0, 0);
    manager
        .database
        .update_repository_index(index_of(repo("main", 1), vec![editor, tool, other]))
        .unwrap();

    // name hit
    assert_eq!(manager.search("edit").len(), 1);
    // case-insensitive description hit
    let by_desc = manager.search("modal text");
    assert_eq!(by_desc.len(), 1);
    assert_eq!(by_desc[0].name, "editor");
    // keyword hit
    let by_kw = manager.search("textutils");
    assert_eq!(by_kw.len(), 1);
    assert_eq!(by_kw[0].name, "tool");
    // no hit
    assert!(manager.search("nomatch").is_empty());
}

#[test]
fn test_repository_priority_wins() {
    let mut manager = fresh_manager();
    let mut a_pkg = catalog_package("pkg", 1, 0, 0);
    a_pkg.description = "from repository a".to_string();
    let mut b_pkg = catalog_package("pkg", 2, 0, 0);
    b_pkg.description = "from repository b".to_string();

    manager.database.update_repository_index(index_of(repo("a", 10), vec![a_pkg])).unwrap();
    manager.database.update_repository_index(index_of(repo("b", 5), vec![b_pkg])).unwrap();

    // the lower priority value is consulted first
    let found = manager.find_package("pkg").expect("pkg exists in both");
    assert_eq!(found.description, "from repository b");
    assert_eq!(found.version, Version::new(2, 0, 0));

    // search reports b's entry first
    let results = manager.search("pkg");
    assert_eq!(results.len(), 2);
    assert_eq!(results[0].description, "from repository b");
}

#[test]
fn test_find_package_picks_latest_version() {
    let mut manager = fresh_manager();
    let entry = PackageEntry {
        name: "curl".to_string(),
        versions: vec![
            catalog_package("curl", 1, 0, 0),
            catalog_package("curl", 2, 1, 0),
            catalog_package("curl", 2, 0, 0),
        ],
    };
    let index = RepositoryIndex {
        repository: repo("main", 1),
        packages: vec![entry],
        groups: Vec::new(),
        provides_index: Vec::new(),
    };
    manager.database.update_repository_index(index).unwrap();

    let found = manager.find_package("curl").unwrap();
    assert_eq!(found.version, Version::new(2, 1, 0));
    assert!(manager.find_package("missing").is_none());
}

#[test]
fn test_resolve_skips_satisfied_dependency() {
    let mut manager = fresh_manager();

    // "bar" 1.2.0 is already installed
    let installed_bar = hecate_pkg::InstalledPackage {
        package: catalog_package("bar", 1, 2, 0),
        install_date: 0,
        install_path: "/".to_string(),
        files: Vec::new(),
        install_reason: InstallReason::Dependency,
    };
    manager.database.record_installation(installed_bar).unwrap();

    // "foo" depends on "bar" >= 1.0
    let mut foo = catalog_package("foo", 1, 0, 0);
    foo.dependencies = vec![Dependency {
        name: "bar".to_string(),
        version_req: ">=1.0".to_string(),
        optional: false,
        build_only: false,
    }];
    manager.database.update_repository_index(index_of(repo("main", 1), vec![foo])).unwrap();

    let plan = manager.plan_install("foo").expect("foo resolves");
    assert_eq!(plan.len(), 1);
    assert_eq!(plan[0].name, "foo");
}

#[test]
fn test_resolve_orders_dependencies_first() {
    let mut manager = fresh_manager();
    let mut app = catalog_package("app", 1, 0, 0);
    app.dependencies = vec![Dependency {
        name: "lib".to_string(),
        version_req: ">=1.0".to_string(),
        optional: false,
        build_only: false,
    }];
    let lib = catalog_package("lib", 1, 5, 0);
    manager.database.update_repository_index(index_of(repo("main", 1), vec![app, lib])).unwrap();

    let plan = manager.plan_install("app").expect("app resolves");
    assert_eq!(plan.len(), 2);
    assert_eq!(plan[0].name, "lib");
    assert_eq!(plan[1].name, "app");
}

#[test]
fn test_resolve_terminates_on_cycle() {
    let mut manager = fresh_manager();
    let mut a = catalog_package("a", 1, 0, 0);
    a.dependencies = vec![Dependency {
        name: "b".to_string(),
        version_req: ">=1.0".to_string(),
        optional: false,
        build_only: false,
    }];
    let mut b = catalog_package("b", 1, 0, 0);
    b.dependencies = vec![Dependency {
        name: "a".to_string(),
        version_req: ">=1.0".to_string(),
        optional: false,
        build_only: false,
    }];
    manager.database.update_repository_index(index_of(repo("main", 1), vec![a, b])).unwrap();

    let plan = manager.plan_install("a").expect("the cycle is broken silently");
    assert_eq!(plan.len(), 2);
    assert_eq!(plan[1].name, "a");
}

#[test]
fn test_resolve_reports_missing_dependency() {
    let mut manager = fresh_manager();
    let mut app = catalog_package("app", 1, 0, 0);
    app.dependencies = vec![Dependency {
        name: "ghost".to_string(),
        version_req: ">=1.0".to_string(),
        optional: false,
        build_only: false,
    }];
    manager.database.update_repository_index(index_of(repo("main", 1), vec![app])).unwrap();

    let err = manager.plan_install("app").unwrap_err();
    assert!(matches!(err, PkgError::DependencyNotFound(n) if n == "ghost"));
}

#[test]
fn test_plan_install_rejects_known_states() {
    let mut manager = fresh_manager();
    let installed_pkg = hecate_pkg::InstalledPackage {
        package: catalog_package("present", 1, 0, 0),
        install_date: 0,
        install_path: "/".to_string(),
        files: Vec::new(),
        install_reason: InstallReason::Explicit,
    };
    manager.database.record_installation(installed_pkg).unwrap();

    let already = manager.plan_install("present").unwrap_err();
    assert!(matches!(already, PkgError::AlreadyInstalled(_)));

    let missing = manager.plan_install("absent").unwrap_err();
    assert!(matches!(missing, PkgError::NotFound(_)));
}

#[test]
fn test_install_package_commits_row() {
    let mut manager = fresh_manager();
    let files = vec![InstalledFile {
        path: "/usr/bin/curl".to_string(),
        checksum: String::new(),
        size: 7,
        permissions: 0o755,
    }];
    manager
        .install_package(catalog_package("curl", 1, 0, 0), files, 42, InstallReason::Explicit)
        .expect("fresh install commits");

    assert!(manager.database.is_installed("curl"));
    let rec = manager.database.get_installed_package("curl").unwrap();
    assert_eq!(rec.install_date, 42);
    assert_eq!(rec.install_path, "/tmp/hecate-root");

    let again = manager.install_package(
        catalog_package("curl", 1, 0, 0),
        Vec::new(),
        43,
        InstallReason::Explicit,
    );
    assert!(matches!(again, Err(PkgError::AlreadyInstalled(_))));
}

#[test]
fn test_remove_conflict_deletes_nothing() {
    let mut manager = fresh_manager();
    manager
        .install_package(catalog_package("libc", 1, 0, 0), Vec::new(), 1, InstallReason::Explicit)
        .unwrap();
    let mut app = catalog_package("app", 1, 0, 0);
    app.dependencies = vec![Dependency {
        name: "libc".to_string(),
        version_req: ">=1.0".to_string(),
        optional: false,
        build_only: false,
    }];
    manager.install_package(app, Vec::new(), 2, InstallReason::Explicit).unwrap();

    let err = manager.remove("libc", false).unwrap_err();
    match err {
        PkgError::DependencyConflict { name, dependents } => {
            assert_eq!(name, "libc");
            assert_eq!(dependents, vec!["app".to_string()]);
        },
        other => panic!("unexpected error: {}", other.message()),
    }
    // zero files deleted: everything is still installed
    assert!(manager.database.is_installed("libc"));
    assert!(manager.database.is_installed("app"));
}

#[test]
fn test_remove_returns_files_reverse_order() {
    let mut manager = fresh_manager();
    let files = vec![
        InstalledFile {
            path: "/usr/share/doc/x".to_string(),
            checksum: String::new(),
            size: 1,
            permissions: 0o644,
        },
        InstalledFile {
            path: "/usr/bin/x".to_string(),
            checksum: String::new(),
            size: 1,
            permissions: 0o755,
        },
    ];
    manager
        .install_package(catalog_package("x", 1, 0, 0), files, 1, InstallReason::Explicit)
        .unwrap();

    let paths = manager.remove("x", false).expect("unreferenced package removes");
    assert_eq!(paths, vec!["/usr/bin/x".to_string(), "/usr/share/doc/x".to_string()]);
    assert!(!manager.database.is_installed("x"));

    let absent = manager.remove("x", false).unwrap_err();
    assert!(matches!(absent, PkgError::NotFound(_)));
}

#[test]
fn test_check_updates_spots_outdated() {
    let mut manager = fresh_manager();
    manager
        .install_package(catalog_package("curl", 1, 0, 0), Vec::new(), 1, InstallReason::Explicit)
        .unwrap();
    manager
        .database
        .update_repository_index(index_of(repo("main", 1), vec![catalog_package("curl", 2, 0, 0)]))
        .unwrap();

    let updates = manager.check_updates();
    assert_eq!(updates.len(), 1);
    assert_eq!(updates[0].0, "curl");
    assert_eq!(updates[0].1.version, Version::new(2, 0, 0));
}

#[test]
fn test_get_package_url_shape() {
    let config = PackageConfig::default();
    let manager = PackageManager::new(config, vec![repo("main", 1)]);
    let url = manager.get_package_url(&catalog_package("curl", 1, 0, 0)).unwrap();
    assert_eq!(url, "https://example.invalid/main/packages/curl-1.0.0.pkg.tar.zst");
}

#[test]
fn test_repositories_sorted_by_priority() {
    let config = PackageConfig::default();
    let manager = PackageManager::new(config, vec![repo("low", 9), repo("high", 1), repo("mid", 5)]);
    assert_eq!(manager.repositories[0].name, "high");
    assert_eq!(manager.repositories[1].name, "mid");
    assert_eq!(manager.repositories[2].name, "low");
}

#[test]
fn test_group_members_follow_priority() {
    let mut manager = fresh_manager();
    let mut a = index_of(repo("a", 10), vec![catalog_package("x", 1, 0, 0)]);
    a.groups = vec![GroupEntry { name: "base".to_string(), members: vec!["x".to_string()] }];
    let mut b = index_of(repo("b", 5), vec![catalog_package("y", 1, 0, 0)]);
    b.groups = vec![GroupEntry {
        name: "base".to_string(),
        members: vec!["y".to_string(), "z".to_string()],
    }];
    manager.database.update_repository_index(a).unwrap();
    manager.database.update_repository_index(b).unwrap();

    let members = manager.database.get_group_members("base");
    assert_eq!(members, vec!["y".to_string(), "z".to_string()]);
    assert_eq!(manager.database.get_groups(), vec!["base".to_string()]);
    assert!(manager.database.get_group_members("missing").is_empty());
}

#[test]
fn test_remove_orphans_single_pass() {
    let mut manager = fresh_manager();
    manager
        .install_package(catalog_package("stray", 1, 0, 0), Vec::new(), 1, InstallReason::Dependency)
        .unwrap();
    manager
        .install_package(catalog_package("kept", 1, 0, 0), Vec::new(), 1, InstallReason::Explicit)
        .unwrap();

    let _ = manager.remove_orphans();
    assert!(!manager.database.is_installed("stray"));
    assert!(manager.database.is_installed("kept"));
}
