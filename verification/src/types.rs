//! The data model: packages, dependencies, installed state, repositories and
//! their indices, together with mathematical views of each type.

use vstd::prelude::*;
use crate::version::Version;

verus! {

/// Supported architectures.
#[derive(Clone, Copy, PartialEq, Eq, Structural, Debug)]
pub enum Architecture {
    X86_64,
    Aarch64,
    Riscv64,
    All,
}

/// Why a package was installed.
#[derive(Clone, Copy, PartialEq, Eq, Structural, Debug)]
pub enum InstallReason {
    Explicit,
    Dependency,
    Group,
}

/// The view of a sequence of owned strings.
pub open spec fn strings_view(v: Seq<String>) -> Seq<Seq<char>> {
    v.map_values(|s: String| s@)
}

/// The view of an optional owned string.
pub open spec fn opt_string_view(v: Option<String>) -> Option<Seq<char>> {
    match v {
        Some(s) => Some(s@),
        None => None,
    }
}

/// Clones a vector of strings; the copy equals the original.
pub fn clone_strings(v: &Vec<String>) -> (r: Vec<String>)
    ensures
        r@ == v@,
{
    let mut r: Vec<String> = Vec::new();
    let mut i: usize = 0;
    while i < v.len()
        invariant
            i <= v@.len(),
            r@ == v@.take(i as int),
        decreases v@.len() - i,
    {
        r.push(v[i].clone());
        assert(r@ =~= v@.take(i + 1));
        i = i + 1;
    }
    assert(v@.take(v@.len() as int) =~= v@);
    r
}

/// Clones an optional string, preserving its view.
pub fn clone_opt_string(v: &Option<String>) -> (r: Option<String>)
    ensures
        r == v,
{
    match v {
        Some(s) => Some(s.clone()),
        None => None,
    }
}

// ------------------------------------------------------------------------
// Checksums
// ------------------------------------------------------------------------

/// The two digests carried by every package, as lowercase hex strings.
#[derive(Debug)]
pub struct PackageChecksum {
    pub sha256: String,
    pub blake3: String,
}

#[verifier::ext_equal]
pub struct PackageChecksumView {
    pub sha256: Seq<char>,
    pub blake3: Seq<char>,
}

impl View for PackageChecksum {
    type V = PackageChecksumView;

    open spec fn view(&self) -> PackageChecksumView {
        PackageChecksumView { sha256: self.sha256@, blake3: self.blake3@ }
    }
}

impl Clone for PackageChecksum {
    fn clone(&self) -> (r: Self)
        ensures
            r == self,
    {
        PackageChecksum { sha256: self.sha256.clone(), blake3: self.blake3.clone() }
    }
}

// ------------------------------------------------------------------------
// Dependencies
// ------------------------------------------------------------------------

/// One dependency edge: a target name and a version-requirement range.
#[derive(Debug)]
pub struct Dependency {
    pub name: String,
    pub version_req: String,
    pub optional: bool,
    pub build_only: bool,
}

#[verifier::ext_equal]
pub struct DependencyView {
    pub name: Seq<char>,
    pub version_req: Seq<char>,
    pub optional: bool,
    pub build_only: bool,
}

impl View for Dependency {
    type V = DependencyView;

    open spec fn view(&self) -> DependencyView {
        DependencyView {
            name: self.name@,
            version_req: self.version_req@,
            optional: self.optional,
            build_only: self.build_only,
        }
    }
}

impl Clone for Dependency {
    fn clone(&self) -> (r: Self)
        ensures
            r == self,
    {
        Dependency {
            name: self.name.clone(),
            version_req: self.version_req.clone(),
            optional: self.optional,
            build_only: self.build_only,
        }
    }
}

/// The view of a sequence of dependencies.
pub open spec fn deps_view(v: Seq<Dependency>) -> Seq<DependencyView> {
    v.map_values(|d: Dependency| d@)
}

/// Clones a dependency list; the copy equals the original.
pub fn clone_deps(v: &Vec<Dependency>) -> (r: Vec<Dependency>)
    ensures
        r@ == v@,
{
    let mut r: Vec<Dependency> = Vec::new();
    let mut i: usize = 0;
    while i < v.len()
        invariant
            i <= v@.len(),
            r@ == v@.take(i as int),
        decreases v@.len() - i,
    {
        r.push(v[i].clone());
        assert(r@ =~= v@.take(i + 1));
        i = i + 1;
    }
    assert(v@.take(v@.len() as int) =~= v@);
    r
}

// ------------------------------------------------------------------------
// Packages
// ------------------------------------------------------------------------

/// Package metadata, immutable once parsed from a repository index.
#[derive(Debug)]
pub struct Package {
    pub name: String,
    pub version: Version,
    pub description: String,
    pub author: String,
    pub license: String,
    pub homepage: Option<String>,
    pub repository: Option<String>,
    pub dependencies: Vec<Dependency>,
    pub conflicts: Vec<String>,
    pub provides: Vec<String>,
    pub replaces: Vec<String>,
    pub categories: Vec<String>,
    pub keywords: Vec<String>,
    pub architecture: Architecture,
    pub size_bytes: u64,
    pub installed_size_bytes: u64,
    pub checksum: PackageChecksum,
    pub signature: Option<String>,
    pub build_date: u64,
}

#[verifier::ext_equal]
pub struct PackageView {
    pub name: Seq<char>,
    pub version: Version,
    pub description: Seq<char>,
    pub author: Seq<char>,
    pub license: Seq<char>,
    pub homepage: Option<Seq<char>>,
    pub repository: Option<Seq<char>>,
    pub dependencies: Seq<DependencyView>,
    pub conflicts: Seq<Seq<char>>,
    pub provides: Seq<Seq<char>>,
    pub replaces: Seq<Seq<char>>,
    pub categories: Seq<Seq<char>>,
    pub keywords: Seq<Seq<char>>,
    pub architecture: Architecture,
    pub size_bytes: u64,
    pub installed_size_bytes: u64,
    pub checksum: PackageChecksumView,
    pub signature: Option<Seq<char>>,
    pub build_date: u64,
}

impl View for Package {
    type V = PackageView;

    open spec fn view(&self) -> PackageView {
        PackageView {
            name: self.name@,
            version: self.version,
            description: self.description@,
            author: self.author@,
            license: self.license@,
            homepage: opt_string_view(self.homepage),
            repository: opt_string_view(self.repository),
            dependencies: deps_view(self.dependencies@),
            conflicts: strings_view(self.conflicts@),
            provides: strings_view(self.provides@),
            replaces: strings_view(self.replaces@),
            categories: strings_view(self.categories@),
            keywords: strings_view(self.keywords@),
            architecture: self.architecture,
            size_bytes: self.size_bytes,
            installed_size_bytes: self.installed_size_bytes,
            checksum: self.checksum@,
            signature: opt_string_view(self.signature),
            build_date: self.build_date,
        }
    }
}

impl Clone for Package {
    fn clone(&self) -> (r: Self)
        ensures
            r@ == self@,
    {
        let r = Package {
            name: self.name.clone(),
            version: self.version,
            description: self.description.clone(),
            author: self.author.clone(),
            license: self.license.clone(),
            homepage: clone_opt_string(&self.homepage),
            repository: clone_opt_string(&self.repository),
            dependencies: clone_deps(&self.dependencies),
            conflicts: clone_strings(&self.conflicts),
            provides: clone_strings(&self.provides),
            replaces: clone_strings(&self.replaces),
            categories: clone_strings(&self.categories),
            keywords: clone_strings(&self.keywords),
            architecture: self.architecture,
            size_bytes: self.size_bytes,
            installed_size_bytes: self.installed_size_bytes,
            checksum: self.checksum.clone(),
            signature: clone_opt_string(&self.signature),
            build_date: self.build_date,
        };
        assert(r@ =~= self@);
        r
    }
}

/// The view of a sequence of packages.
pub open spec fn packages_view(v: Seq<Package>) -> Seq<PackageView> {
    v.map_values(|p: Package| p@)
}

// ------------------------------------------------------------------------
// Installed state
// ------------------------------------------------------------------------

/// One file written during an install.
#[derive(Debug)]
pub struct InstalledFile {
    pub path: String,
    pub checksum: String,
    pub size: u64,
    pub permissions: u32,
}

#[verifier::ext_equal]
pub struct InstalledFileView {
    pub path: Seq<char>,
    pub checksum: Seq<char>,
    pub size: u64,
    pub permissions: u32,
}

impl View for InstalledFile {
    type V = InstalledFileView;

    open spec fn view(&self) -> InstalledFileView {
        InstalledFileView {
            path: self.path@,
            checksum: self.checksum@,
            size: self.size,
            permissions: self.permissions,
        }
    }
}

impl Clone for InstalledFile {
    fn clone(&self) -> (r: Self)
        ensures
            r == self,
    {
        InstalledFile {
            path: self.path.clone(),
            checksum: self.checksum.clone(),
            size: self.size,
            permissions: self.permissions,
        }
    }
}

/// The view of a sequence of installed files.
pub open spec fn files_view(v: Seq<InstalledFile>) -> Seq<InstalledFileView> {
    v.map_values(|f: InstalledFile| f@)
}

/// Clones a file list; the copy equals the original.
pub fn clone_files(v: &Vec<InstalledFile>) -> (r: Vec<InstalledFile>)
    ensures
        r@ == v@,
{
    let mut r: Vec<InstalledFile> = Vec::new();
    let mut i: usize = 0;
    while i < v.len()
        invariant
            i <= v@.len(),
            r@ == v@.take(i as int),
        decreases v@.len() - i,
    {
        r.push(v[i].clone());
        assert(r@ =~= v@.take(i + 1));
        i = i + 1;
    }
    assert(v@.take(v@.len() as int) =~= v@);
    r
}

/// A package as installed on the machine: the package, when and where it was
/// applied, the exact files written, and the reason it is present.
#[derive(Debug)]
pub struct InstalledPackage {
    pub package: Package,
    pub install_date: u64,
    pub install_path: String,
    pub files: Vec<InstalledFile>,
    pub install_reason: InstallReason,
}

#[verifier::ext_equal]
pub struct InstalledPackageView {
    pub package: PackageView,
    pub install_date: u64,
    pub install_path: Seq<char>,
    pub files: Seq<InstalledFileView>,
    pub install_reason: InstallReason,
}

impl View for InstalledPackage {
    type V = InstalledPackageView;

    open spec fn view(&self) -> InstalledPackageView {
        InstalledPackageView {
            package: self.package@,
            install_date: self.install_date,
            install_path: self.install_path@,
            files: files_view(self.files@),
            install_reason: self.install_reason,
        }
    }
}

impl Clone for InstalledPackage {
    fn clone(&self) -> (r: Self)
        ensures
            r@ == self@,
    {
        let r = InstalledPackage {
            package: self.package.clone(),
            install_date: self.install_date,
            install_path: self.install_path.clone(),
            files: clone_files(&self.files),
            install_reason: self.install_reason,
        };
        assert(r@ =~= self@);
        r
    }
}

// ------------------------------------------------------------------------
// Repositories
// ------------------------------------------------------------------------

/// A package repository; lower priority wins when several provide a name.
#[derive(Debug)]
pub struct Repository {
    pub name: String,
    pub url: String,
    pub mirror_urls: Vec<String>,
    pub enabled: bool,
    pub priority: i32,
    pub gpg_check: bool,
    pub gpg_key: Option<String>,
    pub last_update: Option<u64>,
}

#[verifier::ext_equal]
pub struct RepositoryView {
    pub name: Seq<char>,
    pub url: Seq<char>,
    pub mirror_urls: Seq<Seq<char>>,
    pub enabled: bool,
    pub priority: i32,
    pub gpg_check: bool,
    pub gpg_key: Option<Seq<char>>,
    pub last_update: Option<u64>,
}

impl View for Repository {
    type V = RepositoryView;

    open spec fn view(&self) -> RepositoryView {
        RepositoryView {
            name: self.name@,
            url: self.url@,
            mirror_urls: strings_view(self.mirror_urls@),
            enabled: self.enabled,
            priority: self.priority,
            gpg_check: self.gpg_check,
            gpg_key: opt_string_view(self.gpg_key),
            last_update: self.last_update,
        }
    }
}

impl Clone for Repository {
    fn clone(&self) -> (r: Self)
        ensures
            r@ == self@,
    {
        let r = Repository {
            name: self.name.clone(),
            url: self.url.clone(),
            mirror_urls: clone_strings(&self.mirror_urls),
            enabled: self.enabled,
            priority: self.priority,
            gpg_check: self.gpg_check,
            gpg_key: clone_opt_string(&self.gpg_key),
            last_update: self.last_update,
        };
        assert(r@ =~= self@);
        r
    }
}

/// All known versions of one name within a repository index.
#[derive(Debug)]
pub struct PackageEntry {
    pub name: String,
    pub versions: Vec<Package>,
}

#[verifier::ext_equal]
pub struct PackageEntryView {
    pub name: Seq<char>,
    pub versions: Seq<PackageView>,
}

impl View for PackageEntry {
    type V = PackageEntryView;

    open spec fn view(&self) -> PackageEntryView {
        PackageEntryView { name: self.name@, versions: packages_view(self.versions@) }
    }
}

/// One named group of packages.
#[derive(Debug)]
pub struct GroupEntry {
    pub name: String,
    pub members: Vec<String>,
}

#[verifier::ext_equal]
pub struct GroupEntryView {
    pub name: Seq<char>,
    pub members: Seq<Seq<char>>,
}

impl View for GroupEntry {
    type V = GroupEntryView;

    open spec fn view(&self) -> GroupEntryView {
        GroupEntryView { name: self.name@, members: strings_view(self.members@) }
    }
}

/// The reverse index from a "provides" capability to provider names.
#[derive(Debug)]
pub struct ProvidesEntry {
    pub capability: String,
    pub providers: Vec<String>,
}

#[verifier::ext_equal]
pub struct ProvidesEntryView {
    pub capability: Seq<char>,
    pub providers: Seq<Seq<char>>,
}

impl View for ProvidesEntry {
    type V = ProvidesEntryView;

    open spec fn view(&self) -> ProvidesEntryView {
        ProvidesEntryView { capability: self.capability@, providers: strings_view(self.providers@) }
    }
}

/// A repository plus its catalog: names with their known versions, groups,
/// and the provides reverse index.
#[derive(Debug)]
pub struct RepositoryIndex {
    pub repository: Repository,
    pub packages: Vec<PackageEntry>,
    pub groups: Vec<GroupEntry>,
    pub provides_index: Vec<ProvidesEntry>,
}

#[verifier::ext_equal]
pub struct RepositoryIndexView {
    pub repository: RepositoryView,
    pub packages: Seq<PackageEntryView>,
    pub groups: Seq<GroupEntryView>,
    pub provides_index: Seq<ProvidesEntryView>,
}

impl View for RepositoryIndex {
    type V = RepositoryIndexView;

    open spec fn view(&self) -> RepositoryIndexView {
        RepositoryIndexView {
            repository: self.repository@,
            packages: self.packages@.map_values(|e: PackageEntry| e@),
            groups: self.groups@.map_values(|g: GroupEntry| g@),
            provides_index: self.provides_index@.map_values(|p: ProvidesEntry| p@),
        }
    }
}

// ------------------------------------------------------------------------
// Configuration
// ------------------------------------------------------------------------

/// Package manager configuration, supplied by external configuration loading.
#[derive(Debug)]
pub struct PackageConfig {
    pub root_dir: String,
    pub db_path: String,
    pub cache_dir: String,
    pub log_dir: String,
    pub parallel_downloads: usize,
    pub keep_cache: bool,
    pub verify_signatures: bool,
    pub auto_remove_orphans: bool,
    pub color_output: bool,
}

impl Default for PackageConfig {
    /// The stock configuration: system paths, four parallel downloads,
    /// signature verification on, orphans kept.
    fn default() -> (r: Self)
        ensures
            r.root_dir@ == "/"@,
            r.db_path@ == "/var/lib/hecate-pkg/db"@,
            r.cache_dir@ == "/var/cache/hecate-pkg"@,
            r.log_dir@ == "/var/log/hecate-pkg"@,
            r.parallel_downloads == 4,
            r.keep_cache,
            r.verify_signatures,
            !r.auto_remove_orphans,
            r.color_output,
    {
        PackageConfig {
            root_dir: "/".to_owned(),
            db_path: "/var/lib/hecate-pkg/db".to_owned(),
            cache_dir: "/var/cache/hecate-pkg".to_owned(),
            log_dir: "/var/log/hecate-pkg".to_owned(),
            parallel_downloads: 4,
            keep_cache: true,
            verify_signatures: true,
            auto_remove_orphans: false,
            color_output: true,
        }
    }
}

} // verus!
