//! Data-model and version tests.

use hecate_pkg::{Architecture, Package, PackageChecksum, PkgError, SecuritySeverity, Version};

fn sample_package(name: &str, major: u64, minor: u64, patch: u64) -> Package {
    Package {
        name: name.to_string(),
        version: Version::new(major, minor, patch),
        description: String::new(),
        author: String::new(),
        license: String::new(),
        homepage: None,
        repository: None,
        dependencies: Vec::new(),
        conflicts: Vec::new(),
        provides: Vec::new(),
        replaces: Vec::new(),
        categories: Vec::new(),
        keywords: Vec::new(),
        architecture: Architecture::X86_64,
        size_bytes: 0,
        installed_size_bytes: 0,
        checksum: PackageChecksum { sha256: String::new(), blake3: String::new() },
        signature: None,
        build_date: 0,
    }
}

#[test]
fn test_package_metadata() {
    let mut package = sample_package("test-package", 1, 0, 0);
    package.description = "Test package".to_string();
    package.author = "Test Author".to_string();
    package.license = "MIT".to_string();
    package.categories = vec!["test".to_string()];
    package.keywords = vec!["test".to_string()];
    package.size_bytes = 1024;
    package.installed_size_bytes = 2048;
    package.checksum = PackageChecksum {
        sha256: "abc123".to_string(),
        blake3: "def456".to_string(),
    };

    assert_eq!(package.name, "test-package");
    assert_eq!(package.version.to_string(), "1.0.0");
}

#[test]
fn test_architecture_detection() {
    let arch = Architecture::X86_64;
    assert_eq!(arch, Architecture::X86_64);

    let arch_all = Architecture::All;
    assert_eq!(arch_all, Architecture::All);
}

#[test]
fn test_security_severity_ordering() {
    assert!(SecuritySeverity::Critical > SecuritySeverity::High);
    assert!(SecuritySeverity::High > SecuritySeverity::Medium);
    assert!(SecuritySeverity::Medium > SecuritySeverity::Low);
}

#[test]
fn test_version_parse_canonical() {
    let v = Version::parse("1.2.3").expect("canonical version must parse");
    assert_eq!(v, Version::new(1, 2, 3));
    assert_eq!(v.to_string(), "1.2.3");

    let big = Version::parse("10.0.30").expect("multi-digit version must parse");
    assert_eq!(big, Version::new(10, 0, 30));
}

#[test]
fn test_version_parse_rejects_malformed() {
    assert!(Version::parse("1.0").is_none());
    assert!(Version::parse("1.0.0.0").is_none());
    assert!(Version::parse("01.0.0").is_none());
    assert!(Version::parse("1..0").is_none());
    assert!(Version::parse("a.b.c").is_none());
    assert!(Version::parse("").is_none());
}

#[test]
fn test_version_ordering() {
    let a = Version::new(1, 2, 3);
    let b = Version::new(1, 3, 0);
    assert!(a.lt(&b));
    assert!(!b.lt(&a));
    assert!(!a.lt(&a));
}

#[test]
fn test_version_requirement_matching() {
    let installed = Version::new(1, 2, 0);
    assert_eq!(hecate_pkg::version::version_req_matches(">=1.0", &installed), Some(true));
    assert_eq!(hecate_pkg::version::version_req_matches(">=2.0", &installed), Some(false));
    assert_eq!(hecate_pkg::version::version_req_matches("not a range", &installed), None);
}

#[test]
fn test_error_messages_name_subject() {
    let e = PkgError::NotFound("curl".to_string());
    assert_eq!(e.message(), "package is not installed: curl");
    let c = PkgError::ChecksumMismatch("zlib".to_string());
    assert_eq!(c.message(), "checksum mismatch: zlib");
}

#[test]
fn test_string_equality_helper() {
    assert!(hecate_pkg::str_eq("abc", "abc"));
    assert!(!hecate_pkg::str_eq("abc", "abd"));
    assert!(!hecate_pkg::str_eq("abc", "abcd"));
    assert!(hecate_pkg::str_eq("", ""));
}
