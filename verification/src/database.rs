//! The ledger of installed packages, the cached repository catalogs, and the
//! transaction audit log, held as one in-memory value with exact contracts.
//! Durability is the caller's concern: the surrounding program persists the
//! ledger and rebuilds it through the same verified mutators.

use vstd::prelude::*;
use crate::types::{InstalledPackage, InstallReason, RepositoryIndex};
use crate::errors::PkgError;
use crate::strutil::str_eq;

verus! {

// ------------------------------------------------------------------------
// Transaction audit records
// ------------------------------------------------------------------------

#[derive(Clone, Copy, PartialEq, Eq, Structural, Debug)]
pub enum TransactionType {
    Install,
    Remove,
    Upgrade,
}

#[derive(Clone, Copy, PartialEq, Eq, Structural, Debug)]
pub enum TransactionStatus {
    Pending,
    Completed,
    Failed,
}

/// One entry of the append-only audit log.
#[derive(Debug)]
pub struct TransactionRecord {
    pub id: u64,
    pub transaction_type: TransactionType,
    pub package_name: String,
    pub old_version: Option<String>,
    pub new_version: Option<String>,
    pub status: TransactionStatus,
    pub error_message: Option<String>,
}

/// The same record with its status replaced.
pub open spec fn with_status(r: TransactionRecord, st: TransactionStatus) -> TransactionRecord {
    TransactionRecord { status: st, ..r }
}

// ------------------------------------------------------------------------
// Spec helpers over the installed ledger
// ------------------------------------------------------------------------

/// Does `p` list `name` among its dependencies?
pub open spec fn pkg_depends_on(p: InstalledPackage, name: Seq<char>) -> bool {
    exists|j: int|
        0 <= j < p.package.dependencies@.len() && p.package.dependencies@[j].name@ == name
}

/// Is some package of `s` named `name`?
pub open spec fn has_installed(s: Seq<InstalledPackage>, name: Seq<char>) -> bool {
    exists|i: int| 0 <= i < s.len() && s[i].package.name@ == name
}

/// All names of `s` are pairwise distinct.
pub open spec fn unique_names(s: Seq<InstalledPackage>) -> bool {
    forall|i: int, j: int|
        0 <= i < j < s.len() ==> s[i].package.name@ != s[j].package.name@
}

/// The names of the packages of `s` that list `name` as a dependency, in
/// ledger order.
pub open spec fn dependents_of(s: Seq<InstalledPackage>, name: Seq<char>) -> Seq<Seq<char>>
    decreases s.len(),
{
    if s.len() == 0 {
        Seq::empty()
    } else {
        let rest = dependents_of(s.drop_last(), name);
        if pkg_depends_on(s.last(), name) {
            rest.push(s.last().package.name@)
        } else {
            rest
        }
    }
}

/// The ledger with the package of that name left out.
pub open spec fn without_name(s: Seq<InstalledPackage>, name: Seq<char>) -> Seq<InstalledPackage>
    decreases s.len(),
{
    if s.len() == 0 {
        Seq::empty()
    } else {
        let rest = without_name(s.drop_last(), name);
        if s.last().package.name@ == name {
            rest
        } else {
            rest.push(s.last())
        }
    }
}

/// Round trip: recording an installation and then looking the name up
/// yields the very record, with equal name, version, file count and
/// dependency count; no other entry carries the name.
pub proof fn lemma_record_then_lookup(s: Seq<InstalledPackage>, p: InstalledPackage)
    requires
        !has_installed(s, p.package.name@),
    ensures
        has_installed(s.push(p), p.package.name@),
        forall|i: int|
            0 <= i < s.push(p).len() && (#[trigger] s.push(p)[i]).package.name@
                == p.package.name@ ==> s.push(p)[i] == p && s.push(p)[i].package.version
                == p.package.version && s.push(p)[i].files@.len() == p.files@.len() && s.push(
                p,
            )[i].package.dependencies@.len() == p.package.dependencies@.len(),
{
    assert(s.push(p)[s.len() as int] == p);
    assert forall|i: int|
        0 <= i < s.push(p).len() && (#[trigger] s.push(p)[i]).package.name@
            == p.package.name@ implies s.push(p)[i] == p by {
        if i < s.len() {
            assert(s[i].package.name@ == p.package.name@);
        }
    }
}

/// Leaving a name out never adds a package: whatever is installed afterwards
/// was installed before.
pub proof fn lemma_without_name_keeps(s: Seq<InstalledPackage>, name: Seq<char>, n: Seq<char>)
    requires
        has_installed(without_name(s, name), n),
    ensures
        has_installed(s, n),
    decreases s.len(),
{
    if s.len() > 0 {
        let rest = without_name(s.drop_last(), name);
        if s.last().package.name@ == name {
            lemma_without_name_keeps(s.drop_last(), name, n);
            let i = choose|i: int|
                0 <= i < s.drop_last().len() && s.drop_last()[i].package.name@ == n;
            assert(s[i].package.name@ == n);
        } else {
            let t = without_name(s, name);
            let k = choose|k: int| 0 <= k < t.len() && t[k].package.name@ == n;
            if k < t.len() - 1 {
                assert(rest[k].package.name@ == n);
                lemma_without_name_keeps(s.drop_last(), name, n);
                let i = choose|i: int|
                    0 <= i < s.drop_last().len() && s.drop_last()[i].package.name@ == n;
                assert(s[i].package.name@ == n);
            } else {
                assert(t[k] == s.last());
                assert(s[s.len() - 1].package.name@ == n);
            }
        }
    }
}

/// An orphan: installed as a dependency, and no package of `all` (itself
/// included) lists it as a dependency.
pub open spec fn is_orphan(all: Seq<InstalledPackage>, p: InstalledPackage) -> bool {
    &&& p.install_reason is Dependency
    &&& forall|j: int| 0 <= j < all.len() ==> !pkg_depends_on(#[trigger] all[j], p.package.name@)
}

pub open spec fn orphans_rec(all: Seq<InstalledPackage>, s: Seq<InstalledPackage>) -> Seq<Seq<char>>
    decreases s.len(),
{
    if s.len() == 0 {
        Seq::empty()
    } else {
        let rest = orphans_rec(all, s.drop_last());
        if is_orphan(all, s.last()) {
            rest.push(s.last().package.name@)
        } else {
            rest
        }
    }
}

/// The names of the orphans of `s`, in ledger order.
pub open spec fn orphans_of(s: Seq<InstalledPackage>) -> Seq<Seq<char>> {
    orphans_rec(s, s)
}

// ------------------------------------------------------------------------
// Spec helpers over the catalog and the audit log
// ------------------------------------------------------------------------

/// Repository names are distinct, priorities never decrease, and each
/// stored catalog is well-formed.
pub open spec fn indices_wf(s: Seq<RepositoryIndex>) -> bool {
    &&& forall|i: int, j: int|
        0 <= i < j < s.len() ==> (#[trigger] s[i]).repository.name@ != (
        #[trigger] s[j]).repository.name@
    &&& forall|i: int, j: int|
        0 <= i < j < s.len() ==> (#[trigger] s[i]).repository.priority <= (
        #[trigger] s[j]).repository.priority
    &&& forall|i: int| 0 <= i < s.len() ==> index_wf(#[trigger] s[i])
}

/// Audit entries carry distinct ids below the next free one.
pub open spec fn tx_wf(ts: Seq<TransactionRecord>, next: u64) -> bool {
    &&& forall|i: int| 0 <= i < ts.len() ==> (#[trigger] ts[i]).id < next
    &&& forall|i: int, j: int| 0 <= i < j < ts.len() ==> ts[i].id != ts[j].id
}

/// Is any audit entry still pending?
pub open spec fn has_pending(ts: Seq<TransactionRecord>) -> bool {
    exists|i: int| 0 <= i < ts.len() && ts[i].status is Pending
}

/// Package-entry names within one index are pairwise distinct.
pub open spec fn entries_unique(es: Seq<crate::types::PackageEntry>) -> bool {
    forall|i: int, j: int|
        0 <= i < j < es.len() ==> (#[trigger] es[i]).name@ != (#[trigger] es[j]).name@
}

/// Every version listed under an entry carries the entry's name.
pub open spec fn entries_named_ok(es: Seq<crate::types::PackageEntry>) -> bool {
    forall|i: int, k: int|
        0 <= i < es.len() && 0 <= k < (#[trigger] es[i]).versions@.len() ==> (
        #[trigger] es[i].versions@[k]).name@ == es[i].name@
}

/// A well-formed index: it belongs to an enabled repository, its entry
/// names are unique, and every version is filed under its own name.
pub open spec fn index_wf(ix: RepositoryIndex) -> bool {
    ix.repository.enabled && entries_unique(ix.packages@) && entries_named_ok(ix.packages@)
}

/// `t` is `s` with `x` put in place of the entry of the same repository
/// name (or added, when none was there), at some position.
pub open spec fn upserted(
    s: Seq<RepositoryIndex>,
    t: Seq<RepositoryIndex>,
    x: RepositoryIndex,
) -> bool {
    if exists|p: int|
        0 <= p < s.len() && (#[trigger] s[p]).repository.name@ == x.repository.name@ {
        exists|p: int, q: int|
            0 <= p < s.len() && s[p].repository.name@ == x.repository.name@ && 0 <= q <= s.len()
                - 1 && t == s.remove(p).insert(q, x)
    } else {
        exists|q: int| 0 <= q <= s.len() && t == s.insert(q, x)
    }
}

/// How many packages of `s` were installed explicitly.
pub open spec fn explicit_count(s: Seq<InstalledPackage>) -> int
    decreases s.len(),
{
    if s.len() == 0 {
        0
    } else {
        explicit_count(s.drop_last()) + if s.last().install_reason is Explicit {
            1int
        } else {
            0int
        }
    }
}

/// The total of the recorded sizes of `s`.
pub open spec fn sizes_sum(s: Seq<InstalledPackage>) -> int
    decreases s.len(),
{
    if s.len() == 0 {
        0
    } else {
        sizes_sum(s.drop_last()) + s.last().package.size_bytes
    }
}

/// The entry names of one catalog.
pub open spec fn entry_names(es: Seq<crate::types::PackageEntry>) -> Seq<Seq<char>>
    decreases es.len(),
{
    if es.len() == 0 {
        Seq::empty()
    } else {
        entry_names(es.drop_last()).push(es.last().name@)
    }
}

/// Each catalog entry contributes its name to `entry_names`.
pub proof fn lemma_entry_names_member(es: Seq<crate::types::PackageEntry>, b: int)
    requires
        0 <= b < es.len(),
    ensures
        entry_names(es).contains(es[b].name@),
        entry_names(es).len() == es.len(),
    decreases es.len(),
{
    if b == es.len() - 1 {
        assert(entry_names(es).last() == es[b].name@);
        if es.len() > 1 {
            lemma_entry_names_member(es.drop_last(), 0);
        }
    } else {
        assert(es.drop_last()[b] == es[b]);
        lemma_entry_names_member(es.drop_last(), b);
        let t = entry_names(es.drop_last());
        let k = choose|k: int| 0 <= k < t.len() && t[k] == es[b].name@;
        assert(entry_names(es)[k] == t[k]);
    }
}

/// The entry names of every catalog, in catalog order.
pub open spec fn catalog_names(is: Seq<RepositoryIndex>) -> Seq<Seq<char>>
    decreases is.len(),
{
    if is.len() == 0 {
        Seq::empty()
    } else {
        catalog_names(is.drop_last()) + entry_names(is.last().packages@)
    }
}

/// The group-entry names of one catalog.
pub open spec fn group_entry_names(gs: Seq<crate::types::GroupEntry>) -> Seq<Seq<char>>
    decreases gs.len(),
{
    if gs.len() == 0 {
        Seq::empty()
    } else {
        group_entry_names(gs.drop_last()).push(gs.last().name@)
    }
}

/// The group names defined by every catalog, in catalog order.
pub open spec fn group_names(is: Seq<RepositoryIndex>) -> Seq<Seq<char>>
    decreases is.len(),
{
    if is.len() == 0 {
        Seq::empty()
    } else {
        group_names(is.drop_last()) + group_entry_names(is.last().groups@)
    }
}

/// The distinct names of `s`, each at its first occurrence.
pub open spec fn dedup_names(s: Seq<Seq<char>>) -> Seq<Seq<char>>
    decreases s.len(),
{
    if s.len() == 0 {
        Seq::empty()
    } else {
        let rest = dedup_names(s.drop_last());
        if exists|j: int| 0 <= j < s.len() - 1 && s[j] == s.last() {
            rest
        } else {
            rest.push(s.last())
        }
    }
}

/// The first group of that name within one catalog, front first.
pub open spec fn find_group(gs: Seq<crate::types::GroupEntry>, g: Seq<char>) -> Option<
    Seq<Seq<char>>,
>
    decreases gs.len(),
{
    if gs.len() == 0 {
        None
    } else if gs[0].name@ == g {
        Some(crate::types::strings_view(gs[0].members@))
    } else {
        find_group(gs.drop_first(), g)
    }
}

/// The members of the named group, taken from the highest-priority
/// repository that defines it; empty when none does.
pub open spec fn group_members_in(is: Seq<RepositoryIndex>, g: Seq<char>) -> Seq<Seq<char>>
    decreases is.len(),
{
    if is.len() == 0 {
        Seq::empty()
    } else {
        match find_group(is[0].groups@, g) {
            Some(m) => m,
            None => group_members_in(is.drop_first(), g),
        }
    }
}

/// A string with view `x` occurs in `names` exactly when the views contain it.
proof fn lemma_name_view_contains(names: Seq<String>, x: Seq<char>)
    ensures
        (exists|j: int| 0 <= j < names.len() && (#[trigger] names[j])@ == x)
            == crate::types::strings_view(names).contains(x),
{
    let sv = crate::types::strings_view(names);
    if exists|j: int| 0 <= j < names.len() && (#[trigger] names[j])@ == x {
        let j = choose|j: int| 0 <= j < names.len() && (#[trigger] names[j])@ == x;
        assert(sv[j] == x);
    }
    if sv.contains(x) {
        let j = choose|j: int| 0 <= j < sv.len() && sv[j] == x;
        assert(names[j]@ == x);
    }
}

/// Extending the name run by an already-seen name leaves the dedup alone.
proof fn lemma_dedup_skip(names: Seq<String>, pfx: Seq<Seq<char>>, x: Seq<char>)
    requires
        crate::types::strings_view(names) == dedup_names(pfx),
        forall|n: Seq<char>|
            #[trigger] crate::types::strings_view(names).contains(n) == pfx.contains(n),
        pfx.contains(x),
    ensures
        crate::types::strings_view(names) == dedup_names(pfx.push(x)),
        forall|n: Seq<char>|
            #[trigger] crate::types::strings_view(names).contains(n) == pfx.push(x).contains(n),
{
    let sv = crate::types::strings_view(names);
    assert(pfx.push(x).drop_last() =~= pfx);
    assert(pfx.push(x).last() == x);
    let t = choose|t: int| 0 <= t < pfx.len() && pfx[t] == x;
    assert(exists|j: int|
        0 <= j < pfx.push(x).len() - 1 && pfx.push(x)[j] == pfx.push(x).last()) by {
        assert(pfx.push(x)[t] == x);
    }
    assert(dedup_names(pfx.push(x)) == dedup_names(pfx));
    assert forall|n: Seq<char>| #[trigger] sv.contains(n) == pfx.push(x).contains(n) by {
        if pfx.push(x).contains(n) {
            let u = choose|u: int| 0 <= u < pfx.push(x).len() && pfx.push(x)[u] == n;
            if u < pfx.len() {
                assert(pfx[u] == n);
                assert(pfx.contains(n));
            } else {
                assert(n == x);
            }
        }
        if pfx.contains(n) {
            let u = choose|u: int| 0 <= u < pfx.len() && pfx[u] == n;
            assert(pfx.push(x)[u] == n);
        }
    }
}

/// Extending the name run by a fresh name appends it to the dedup.
proof fn lemma_dedup_push(names: Seq<String>, e: String, pfx: Seq<Seq<char>>, x: Seq<char>)
    requires
        crate::types::strings_view(names) == dedup_names(pfx),
        forall|n: Seq<char>|
            #[trigger] crate::types::strings_view(names).contains(n) == pfx.contains(n),
        !pfx.contains(x),
        e@ == x,
    ensures
        crate::types::strings_view(names.push(e)) == dedup_names(pfx.push(x)),
        forall|n: Seq<char>|
            #[trigger] crate::types::strings_view(names.push(e)).contains(n) == pfx.push(
                x,
            ).contains(n),
{
    let sv = crate::types::strings_view(names);
    let sv2 = crate::types::strings_view(names.push(e));
    assert(pfx.push(x).drop_last() =~= pfx);
    assert(pfx.push(x).last() == x);
    assert(forall|j: int| 0 <= j < pfx.len() ==> #[trigger] pfx.push(x)[j] != x);
    assert(dedup_names(pfx.push(x)) == dedup_names(pfx).push(x));
    assert(sv2 =~~= sv.push(x));
    assert forall|n: Seq<char>| #[trigger] sv2.contains(n) == pfx.push(x).contains(n) by {
        if sv2.contains(n) {
            let j = choose|j: int| 0 <= j < sv2.len() && sv2[j] == n;
            if j < sv.len() {
                assert(names.push(e)[j] == names[j]);
                assert(sv[j] == n);
                assert(sv.contains(n));
                let u = choose|u: int| 0 <= u < pfx.len() && pfx[u] == n;
                assert(pfx.push(x)[u] == n);
                assert(pfx.push(x).contains(n));
            } else {
                assert(n == x);
                assert(pfx.push(x)[pfx.len() as int] == x);
                assert(pfx.push(x).contains(n));
            }
        }
        if pfx.push(x).contains(n) {
            let u = choose|u: int| 0 <= u < pfx.push(x).len() && pfx.push(x)[u] == n;
            if u < pfx.len() {
                assert(pfx[u] == n);
                assert(pfx.contains(n));
                assert(sv.contains(n));
                let j = choose|j: int| 0 <= j < sv.len() && sv[j] == n;
                assert(names.push(e)[j] == names[j]);
                assert(sv2[j] == n);
                assert(sv2.contains(n));
            } else {
                assert(n == x);
                assert(sv2[sv.len() as int] == x);
                assert(sv2.contains(n));
            }
        }
    }
}

/// Counts over the ledger and the catalogs.
#[derive(Clone, Copy, PartialEq, Eq, Structural, Debug)]
pub struct DatabaseStats {
    pub installed_packages: u64,
    pub explicit_packages: u64,
    pub dependency_packages: u64,
    pub orphaned_packages: u64,
    pub available_packages: u64,
    pub repositories: u64,
    pub total_installed_size: u64,
}

/// A cached catalog is fresh at the cutoff: it has no recorded sync time,
/// or the recorded time is at or after the cutoff.
pub open spec fn index_fresh(ix: RepositoryIndex, cutoff: int) -> bool {
    match ix.repository.last_update {
        Some(t) => t >= cutoff,
        None => true,
    }
}

/// The catalogs that survive an age sweep, in order.
pub open spec fn fresh_indices(s: Seq<RepositoryIndex>, cutoff: int) -> Seq<RepositoryIndex>
    decreases s.len(),
{
    if s.len() == 0 {
        Seq::empty()
    } else {
        let rest = fresh_indices(s.drop_last(), cutoff);
        if index_fresh(s.last(), cutoff) {
            rest.push(s.last())
        } else {
            rest
        }
    }
}

proof fn lemma_fresh_indices_identity(s: Seq<RepositoryIndex>, cutoff: int)
    requires
        forall|i: int| 0 <= i < s.len() ==> index_fresh(#[trigger] s[i], cutoff),
    ensures
        fresh_indices(s, cutoff) == s,
    decreases s.len(),
{
    if s.len() > 0 {
        assert(forall|i: int| 0 <= i < s.drop_last().len() ==> s.drop_last()[i] == #[trigger] s[i]);
        lemma_fresh_indices_identity(s.drop_last(), cutoff);
        assert(index_fresh(s[s.len() - 1], cutoff));
        assert(s.drop_last().push(s.last()) =~= s);
    }
}

proof fn lemma_fresh_indices_remove(s: Seq<RepositoryIndex>, cutoff: int, i: int)
    requires
        0 <= i < s.len(),
        !index_fresh(s[i], cutoff),
    ensures
        fresh_indices(s.remove(i), cutoff) == fresh_indices(s, cutoff),
    decreases s.len(),
{
    if i == s.len() - 1 {
        assert(s.remove(i) =~= s.drop_last());
        assert(!index_fresh(s.last(), cutoff));
    } else {
        let t = s.remove(i);
        assert(t.drop_last() =~= s.drop_last().remove(i));
        assert(t.last() == s.last());
        assert(s.drop_last()[i] == s[i]);
        lemma_fresh_indices_remove(s.drop_last(), cutoff, i);
    }
}

// ------------------------------------------------------------------------
// The database
// ------------------------------------------------------------------------

/// The durable, transactional ledger: installed packages, cached repository
/// catalogs, and the transaction audit log. Every multi-row change is a
/// single in-memory mutation, so partial visibility is impossible.
pub struct PackageDatabase {
    installed: Vec<InstalledPackage>,
    indices: Vec<RepositoryIndex>,
    transactions: Vec<TransactionRecord>,
    next_transaction_id: u64,
}

impl PackageDatabase {
    pub closed spec fn installed_seq(self) -> Seq<InstalledPackage> {
        self.installed@
    }

    pub closed spec fn indices_seq(self) -> Seq<RepositoryIndex> {
        self.indices@
    }

    pub closed spec fn transactions_seq(self) -> Seq<TransactionRecord> {
        self.transactions@
    }

    pub closed spec fn next_tx_id(self) -> u64 {
        self.next_transaction_id
    }

    /// Internal consistency of the ledger.
    pub open spec fn wf(self) -> bool {
        &&& unique_names(self.installed_seq())
        &&& indices_wf(self.indices_seq())
        &&& tx_wf(self.transactions_seq(), self.next_tx_id())
    }

    /// Opens a fresh, empty ledger.
    pub fn new() -> (db: PackageDatabase)
        ensures
            db.wf(),
            db.installed_seq() == Seq::<InstalledPackage>::empty(),
            db.indices_seq() == Seq::<RepositoryIndex>::empty(),
            db.transactions_seq() == Seq::<TransactionRecord>::empty(),
            db.next_tx_id() == 0,
    {
        let db = PackageDatabase {
            installed: Vec::new(),
            indices: Vec::new(),
            transactions: Vec::new(),
            next_transaction_id: 0,
        };
        db
    }

    /// Is a package of that name installed?
    pub fn is_installed(&self, package_name: &str) -> (r: bool)
        ensures
            r == has_installed(self.installed_seq(), package_name@),
    {
        let mut i: usize = 0;
        while i < self.installed.len()
            invariant
                i <= self.installed@.len(),
                forall|k: int| 0 <= k < i ==> self.installed@[k].package.name@ != package_name@,
            decreases self.installed@.len() - i,
        {
            if str_eq(self.installed[i].package.name.as_str(), package_name) {
                return true;
            }
            i = i + 1;
        }
        false
    }

    /// The installed package of that name; `NotFound` when absent.
    pub fn get_installed_package(&self, name: &str) -> (r: Result<&InstalledPackage, PkgError>)
        ensures
            match r {
                Ok(p) => {
                    &&& has_installed(self.installed_seq(), name@)
                    &&& p.package.name@ == name@
                    &&& exists|i: int|
                        0 <= i < self.installed_seq().len() && self.installed_seq()[i] == *p
                },
                Err(e) => {
                    &&& !has_installed(self.installed_seq(), name@)
                    &&& e matches PkgError::NotFound(n) && n@ == name@
                },
            },
    {
        let mut i: usize = 0;
        while i < self.installed.len()
            invariant
                i <= self.installed@.len(),
                forall|k: int| 0 <= k < i ==> self.installed@[k].package.name@ != name@,
            decreases self.installed@.len() - i,
        {
            if str_eq(self.installed[i].package.name.as_str(), name) {
                return Ok(&self.installed[i]);
            }
            i = i + 1;
        }
        Err(PkgError::NotFound(name.to_owned()))
    }

    /// Every installed package, in ledger order.
    pub fn get_installed_packages(&self) -> (r: &Vec<InstalledPackage>)
        ensures
            r@ == self.installed_seq(),
    {
        &self.installed
    }

    /// The names of the installed packages that list `package_name` as a
    /// dependency: exactly those, no more, no fewer.
    pub fn get_dependents(&self, package_name: &str) -> (r: Vec<String>)
        ensures
            crate::types::strings_view(r@) == dependents_of(self.installed_seq(), package_name@),
    {
        let mut r: Vec<String> = Vec::new();
        let mut i: usize = 0;
        while i < self.installed.len()
            invariant
                i <= self.installed@.len(),
                crate::types::strings_view(r@) =~~= dependents_of(
                    self.installed@.take(i as int),
                    package_name@,
                ),
            decreases self.installed@.len() - i,
        {
            let p = &self.installed[i];
            if Self::package_lists_dep(p, package_name) {
                r.push(p.package.name.clone());
            }
            proof {
                let s = self.installed@;
                assert(s.take(i + 1).drop_last() =~= s.take(i as int));
                assert(s.take(i + 1).last() == s[i as int]);
                assert(crate::types::strings_view(r@) =~~= dependents_of(
                    s.take(i + 1),
                    package_name@,
                ));
            }
            i = i + 1;
        }
        assert(self.installed@.take(self.installed@.len() as int) =~= self.installed@);
        r
    }

    /// No package of `s` named `name`: leaving it out changes nothing.
    proof fn lemma_without_name_absent(s: Seq<InstalledPackage>, name: Seq<char>)
        requires
            !has_installed(s, name),
        ensures
            without_name(s, name) == s,
        decreases s.len(),
    {
        if s.len() > 0 {
            assert(!has_installed(s.drop_last(), name)) by {
                if has_installed(s.drop_last(), name) {
                    let i = choose|i: int|
                        0 <= i < s.drop_last().len() && s.drop_last()[i].package.name@ == name;
                    assert(s[i].package.name@ == name);
                }
            }
            Self::lemma_without_name_absent(s.drop_last(), name);
            assert(s.last().package.name@ != name) by {
                if s.last().package.name@ == name {
                    assert(s[s.len() - 1].package.name@ == name);
                }
            }
            assert(s.drop_last().push(s.last()) =~= s);
        }
    }

    /// With unique names, leaving a name out is removing its one index.
    proof fn lemma_without_name_remove(s: Seq<InstalledPackage>, name: Seq<char>, idx: int)
        requires
            unique_names(s),
            0 <= idx < s.len(),
            s[idx].package.name@ == name,
        ensures
            without_name(s, name) == s.remove(idx),
        decreases s.len(),
    {
        if idx == s.len() - 1 {
            assert(!has_installed(s.drop_last(), name)) by {
                if has_installed(s.drop_last(), name) {
                    let i = choose|i: int|
                        0 <= i < s.drop_last().len() && s.drop_last()[i].package.name@ == name;
                    assert(s[i].package.name@ == s[idx].package.name@);
                }
            }
            Self::lemma_without_name_absent(s.drop_last(), name);
            assert(s.remove(idx) =~= s.drop_last());
        } else {
            assert(unique_names(s.drop_last())) by {
                assert(forall|i: int|
                    0 <= i < s.drop_last().len() ==> s.drop_last()[i] == #[trigger] s[i]);
            }
            assert(s.drop_last()[idx] == s[idx]);
            Self::lemma_without_name_remove(s.drop_last(), name, idx);
            assert(s.last().package.name@ != name) by {
                assert(s[idx].package.name@ != s[s.len() - 1].package.name@);
            }
            assert(s.drop_last().remove(idx).push(s.last()) =~= s.remove(idx));
        }
    }

    /// Atomically deletes every row of the named package; the rest of the
    /// ledger is untouched. `NotFound` when the package is absent, and then
    /// nothing changes.
    pub fn mark_removed(&mut self, package_name: &str) -> (r: Result<(), PkgError>)
        requires
            old(self).wf(),
        ensures
            final(self).wf(),
            final(self).indices_seq() == old(self).indices_seq(),
            final(self).transactions_seq() == old(self).transactions_seq(),
            final(self).next_tx_id() == old(self).next_tx_id(),
            match r {
                Ok(_) => {
                    &&& has_installed(old(self).installed_seq(), package_name@)
                    &&& final(self).installed_seq() == without_name(
                        old(self).installed_seq(),
                        package_name@,
                    )
                },
                Err(e) => {
                    &&& !has_installed(old(self).installed_seq(), package_name@)
                    &&& e matches PkgError::NotFound(n) && n@ == package_name@
                    &&& final(self).installed_seq() == old(self).installed_seq()
                },
            },
    {
        let ghost s = self.installed@;
        let mut i: usize = 0;
        while i < self.installed.len()
            invariant
                i <= self.installed@.len(),
                s == old(self).installed_seq(),
                s == self.installed@,
                self.indices@ == old(self).indices_seq(),
                self.transactions@ == old(self).transactions_seq(),
                self.next_transaction_id == old(self).next_tx_id(),
                unique_names(s),
                indices_wf(self.indices@),
                tx_wf(self.transactions@, self.next_transaction_id),
                forall|k: int| 0 <= k < i ==> self.installed@[k].package.name@ != package_name@,
            decreases self.installed@.len() - i,
        {
            if str_eq(self.installed[i].package.name.as_str(), package_name) {
                proof {
                    Self::lemma_without_name_remove(s, package_name@, i as int);
                }
                self.installed.remove(i);
                proof {
                    assert forall|a: int, b: int|
                        0 <= a < b < self.installed@.len() implies self.installed@[a].package.name@
                        != self.installed@[b].package.name@ by {
                        let a2: int = if a < i { a } else { a + 1 };
                        let b2: int = if b < i { b } else { b + 1 };
                        assert(self.installed@[a] == s[a2]);
                        assert(self.installed@[b] == s[b2]);
                        assert(s[a2].package.name@ != s[b2].package.name@);
                    }
                    assert(unique_names(self.installed@));
                }
                return Ok(());
            }
            i = i + 1;
        }
        Err(PkgError::NotFound(package_name.to_owned()))
    }

    /// Inserts the package with its files, dependencies, provides and
    /// conflicts as one atomic mutation: afterwards the ledger is the old one
    /// with exactly this row appended. Refused when the name is already
    /// present, and then nothing changes.
    pub fn record_installation(&mut self, installed: InstalledPackage) -> (r: Result<
        (),
        PkgError,
    >)
        requires
            old(self).wf(),
        ensures
            final(self).wf(),
            final(self).indices_seq() == old(self).indices_seq(),
            final(self).transactions_seq() == old(self).transactions_seq(),
            final(self).next_tx_id() == old(self).next_tx_id(),
            match r {
                Ok(_) => {
                    &&& !has_installed(old(self).installed_seq(), installed.package.name@)
                    &&& final(self).installed_seq() == old(self).installed_seq().push(installed)
                },
                Err(e) => {
                    &&& has_installed(old(self).installed_seq(), installed.package.name@)
                    &&& e matches PkgError::DatabaseError(n) && n@ == installed.package.name@
                    &&& final(self).installed_seq() == old(self).installed_seq()
                },
            },
    {
        if self.is_installed(installed.package.name.as_str()) {
            let n = installed.package.name.clone();
            return Err(PkgError::DatabaseError(n));
        }
        proof {
            assert(forall|i: int|
                0 <= i < self.installed@.len() ==> (#[trigger] self.installed@[i]).package.name@
                    != installed.package.name@);
        }
        self.installed.push(installed);
        Ok(())
    }

    /// Every entry of `orphans_rec` names an orphaned member of `s`.
    proof fn lemma_orphans_rec_member(
        all: Seq<InstalledPackage>,
        s: Seq<InstalledPackage>,
        k: int,
    ) -> (t: int)
        requires
            0 <= k < orphans_rec(all, s).len(),
        ensures
            0 <= t < s.len(),
            orphans_rec(all, s)[k] == s[t].package.name@,
            is_orphan(all, s[t]),
        decreases s.len(),
    {
        let prev = orphans_rec(all, s.drop_last());
        if k < prev.len() {
            let t = Self::lemma_orphans_rec_member(all, s.drop_last(), k);
            assert(s.drop_last()[t] == s[t]);
            assert(orphans_rec(all, s)[k] == prev[k]);
            t
        } else {
            assert(is_orphan(all, s.last()));
            assert(orphans_rec(all, s)[k] == s[s.len() - 1].package.name@);
            s.len() - 1
        }
    }

    /// The names of the installed packages that were pulled in as
    /// dependencies and that no installed package still references. Never
    /// includes a package installed explicitly.
    pub fn find_orphans(&self) -> (r: Vec<String>)
        ensures
            crate::types::strings_view(r@) == orphans_of(self.installed_seq()),
    {
        let ghost s = self.installed@;
        let mut r: Vec<String> = Vec::new();
        let mut i: usize = 0;
        while i < self.installed.len()
            invariant
                i <= self.installed@.len(),
                s == self.installed@,
                crate::types::strings_view(r@) =~~= orphans_rec(s, s.take(i as int)),
            decreases self.installed@.len() - i,
        {
            let p = &self.installed[i];
            let is_dep = match p.install_reason {
                InstallReason::Dependency => true,
                _ => false,
            };
            let mut push_it = false;
            if is_dep {
                if !self.some_package_lists(p.package.name.as_str()) {
                    push_it = true;
                }
            }
            proof {
                assert(*p == s[i as int]);
                if push_it {
                    assert(s[i as int].install_reason is Dependency);
                    assert forall|j: int| 0 <= j < s.len() implies !pkg_depends_on(
                        #[trigger] s[j],
                        s[i as int].package.name@,
                    ) by {
                        assert(!pkg_depends_on(self.installed_seq()[j], p.package.name@));
                    }
                    assert(is_orphan(s, s[i as int]));
                } else {
                    if is_dep {
                        let j = choose|j: int|
                            0 <= j < self.installed_seq().len() && pkg_depends_on(
                                #[trigger] self.installed_seq()[j],
                                p.package.name@,
                            );
                        assert(pkg_depends_on(s[j], s[i as int].package.name@));
                        assert(!is_orphan(s, s[i as int]));
                    } else {
                        assert(!(s[i as int].install_reason is Dependency));
                        assert(!is_orphan(s, s[i as int]));
                    }
                }
            }
            if push_it {
                r.push(p.package.name.clone());
            }
            proof {
                assert(s.take(i + 1).drop_last() =~= s.take(i as int));
                assert(s.take(i + 1).last() == s[i as int]);
                assert(crate::types::strings_view(r@) =~~= orphans_rec(s, s.take(i + 1)));
            }
            i = i + 1;
        }
        assert(s.take(s.len() as int) =~= s);
        r
    }

    /// An orphan list never names a package that was installed explicitly:
    /// every entry of `orphans_of` names an installed package whose install
    /// reason is `Dependency`.
    pub proof fn lemma_orphan_is_dependency(s: Seq<InstalledPackage>, k: int) -> (t: int)
        requires
            0 <= k < orphans_of(s).len(),
        ensures
            0 <= t < s.len(),
            orphans_of(s)[k] == s[t].package.name@,
            s[t].install_reason is Dependency,
            !(s[t].install_reason is Explicit),
    {
        let t = Self::lemma_orphans_rec_member(s, s, k);
        t
    }

    /// Does any installed package list `name` among its dependencies?
    fn some_package_lists(&self, name: &str) -> (r: bool)
        ensures
            r == exists|j: int|
                0 <= j < self.installed_seq().len() && pkg_depends_on(
                    #[trigger] self.installed_seq()[j],
                    name@,
                ),
    {
        let mut j: usize = 0;
        while j < self.installed.len()
            invariant
                j <= self.installed@.len(),
                forall|k: int|
                    0 <= k < j ==> !pkg_depends_on(#[trigger] self.installed@[k], name@),
            decreases self.installed@.len() - j,
        {
            if Self::package_lists_dep(&self.installed[j], name) {
                assert(pkg_depends_on(self.installed_seq()[j as int], name@));
                return true;
            }
            j = j + 1;
        }
        false
    }

    /// Decides `index_wf`.
    fn validate_index(ix: &RepositoryIndex) -> (r: bool)
        ensures
            r == index_wf(*ix),
    {
        if !ix.repository.enabled {
            return false;
        }
        let es = &ix.packages;
        let mut i: usize = 0;
        while i < es.len()
            invariant
                i <= es@.len(),
                es@ == ix.packages@,
                forall|a: int, b: int|
                    0 <= a < b < es@.len() && a < i ==> (#[trigger] es@[a]).name@ != (
                    #[trigger] es@[b]).name@,
                forall|a: int, k: int|
                    0 <= a < i && 0 <= k < (#[trigger] es@[a]).versions@.len() ==> (
                    #[trigger] es@[a].versions@[k]).name@ == es@[a].name@,
            decreases es@.len() - i,
        {
            let entry = &es[i];
            let mut k: usize = 0;
            while k < entry.versions.len()
                invariant
                    k <= entry.versions@.len(),
                    *entry == es@[i as int],
                    i < es@.len(),
                    es@ == ix.packages@,
                    forall|t: int|
                        0 <= t < k ==> (#[trigger] entry.versions@[t]).name@ == entry.name@,
                decreases entry.versions@.len() - k,
            {
                if !str_eq(entry.versions[k].name.as_str(), entry.name.as_str()) {
                    assert(!entries_named_ok(ix.packages@)) by {
                        assert(es@[i as int].versions@[k as int].name@ != es@[i as int].name@);
                    }
                    return false;
                }
                k = k + 1;
            }
            let mut j: usize = i + 1;
            while j < es.len()
                invariant
                    i < j <= es@.len(),
                    *entry == es@[i as int],
                    es@ == ix.packages@,
                    forall|b: int| i < b < j ==> (#[trigger] es@[b]).name@ != es@[i as int].name@,
                decreases es@.len() - j,
            {
                if str_eq(es[j].name.as_str(), entry.name.as_str()) {
                    assert(!entries_unique(ix.packages@)) by {
                        assert(es@[i as int].name@ == es@[j as int].name@);
                    }
                    return false;
                }
                j = j + 1;
            }
            i = i + 1;
        }
        true
    }

    /// Atomically replaces the catalog of exactly one repository, leaving
    /// every other repository's catalog untouched; a malformed index, or
    /// one of a disabled repository, is refused and nothing changes.
    pub fn update_repository_index(&mut self, index: RepositoryIndex) -> (r: Result<(), PkgError>)
        requires
            old(self).wf(),
        ensures
            final(self).wf(),
            final(self).installed_seq() == old(self).installed_seq(),
            final(self).transactions_seq() == old(self).transactions_seq(),
            final(self).next_tx_id() == old(self).next_tx_id(),
            match r {
                Ok(_) => {
                    &&& index_wf(index)
                    &&& upserted(old(self).indices_seq(), final(self).indices_seq(), index)
                },
                Err(e) => {
                    &&& !index_wf(index)
                    &&& e matches PkgError::DatabaseError(n) && n@ == index.repository.name@
                    &&& final(self).indices_seq() == old(self).indices_seq()
                },
            },
    {
        if !Self::validate_index(&index) {
            let n = index.repository.name.clone();
            return Err(PkgError::DatabaseError(n));
        }
        let ghost s0 = self.indices@;
        // find and drop an existing catalog of the same repository
        let mut found = false;
        let mut i: usize = 0;
        while i < self.indices.len() && !found
            invariant
                i <= self.indices@.len(),
                self.indices@ == s0,
                !found ==> forall|k: int|
                    0 <= k < i ==> (#[trigger] s0[k]).repository.name@ != index.repository.name@,
                found ==> i >= 1 && i - 1 < s0.len() && (s0[i - 1]).repository.name@
                    == index.repository.name@,
            decreases self.indices@.len() - i,
        {
            if str_eq(
                self.indices[i].repository.name.as_str(),
                index.repository.name.as_str(),
            ) {
                found = true;
            }
            i = i + 1;
        }
        let ghost p: int = i - 1;
        if found {
            self.indices.remove(i - 1);
            proof {
                assert(self.indices@ == s0.remove(p));
                assert forall|a: int, b: int|
                    0 <= a < b < self.indices@.len() implies (
                #[trigger] self.indices@[a]).repository.name@ != (
                #[trigger] self.indices@[b]).repository.name@ && (
                self.indices@[a]).repository.priority <= (self.indices@[b]).repository.priority by {
                    let a2: int = if a < p { a } else { a + 1 };
                    let b2: int = if b < p { b } else { b + 1 };
                    assert(self.indices@[a] == s0[a2]);
                    assert(self.indices@[b] == s0[b2]);
                }
                assert forall|k: int|
                    0 <= k < self.indices@.len() implies (
                #[trigger] self.indices@[k]).repository.name@ != index.repository.name@ by {
                    let k2: int = if k < p { k } else { k + 1 };
                    assert(self.indices@[k] == s0[k2]);
                    if k2 < p {
                        assert(s0[k2].repository.name@ != index.repository.name@);
                    } else if k2 == p {
                        assert(false);
                    } else {
                        assert(s0[p].repository.name@ != s0[k2].repository.name@);
                    }
                }
                assert forall|k: int| 0 <= k < self.indices@.len() implies index_wf(
                    #[trigger] self.indices@[k],
                ) by {
                    let k2: int = if k < p { k } else { k + 1 };
                    assert(self.indices@[k] == s0[k2]);
                }
            }
        } else {
            assert(forall|k: int|
                0 <= k < self.indices@.len() ==> (#[trigger] self.indices@[k]).repository.name@
                    != index.repository.name@);
        }
        let ghost s1 = self.indices@;
        // insert at the first position whose priority exceeds the new one
        let mut q: usize = 0;
        while q < self.indices.len() && self.indices[q].repository.priority
            <= index.repository.priority
            invariant
                q <= self.indices@.len(),
                self.indices@ == s1,
                forall|k: int|
                    0 <= k < q ==> (#[trigger] s1[k]).repository.priority
                        <= index.repository.priority,
            decreases self.indices@.len() - q,
        {
            q = q + 1;
        }
        proof {
            if q < s1.len() {
                assert(s1[q as int].repository.priority > index.repository.priority);
                assert forall|k: int| q <= k < s1.len() implies (
                #[trigger] s1[k]).repository.priority > index.repository.priority by {
                    if k > q {
                        assert(s1[q as int].repository.priority <= s1[k].repository.priority);
                    }
                }
            }
        }
        self.indices.insert(q, index);
        proof {
            let t = self.indices@;
            assert(t == s1.insert(q as int, index));
            assert forall|a: int, b: int|
                0 <= a < b < t.len() implies (#[trigger] t[a]).repository.name@ != (
            #[trigger] t[b]).repository.name@ && (t[a]).repository.priority
                <= (t[b]).repository.priority by {
                if a == q {
                    assert(t[a] == index);
                    assert(t[b] == s1[b - 1]);
                } else if b == q {
                    assert(t[b] == index);
                    assert(t[a] == s1[a]);
                } else {
                    let a2: int = if a < q { a } else { a - 1 };
                    let b2: int = if b < q { b } else { b - 1 };
                    assert(t[a] == s1[a2]);
                    assert(t[b] == s1[b2]);
                }
            }
            assert forall|k: int| 0 <= k < t.len() implies index_wf(#[trigger] t[k]) by {
                if k == q {
                    assert(t[k] == index);
                } else {
                    let k2: int = if k < q { k } else { k - 1 };
                    assert(t[k] == s1[k2]);
                }
            }
            if found {
                assert(upserted(s0, t, index)) by {
                    assert(0 <= p < s0.len() && s0[p].repository.name@ == index.repository.name@);
                    assert(t == s0.remove(p).insert(q as int, index));
                }
            } else {
                assert(upserted(s0, t, index)) by {
                    assert(t == s0.insert(q as int, index));
                    if exists|pp: int|
                        0 <= pp < s0.len() && (#[trigger] s0[pp]).repository.name@
                            == index.repository.name@ {
                        let pp = choose|pp: int|
                            0 <= pp < s0.len() && (#[trigger] s0[pp]).repository.name@
                                == index.repository.name@;
                        assert(false);
                    }
                }
            }
        }
        Ok(())
    }

    /// The cached repository catalogs, in priority order (lowest first).
    /// A well-formed ledger stores catalogs of enabled repositories only.
    pub fn get_repository_indices(&self) -> (r: &Vec<RepositoryIndex>)
        ensures
            r@ == self.indices_seq(),
            self.wf() ==> forall|i: int|
                0 <= i < r@.len() ==> (#[trigger] r@[i]).repository.enabled,
    {
        &self.indices
    }

    /// Opens a pending audit record and hands back its id.
    pub fn begin_transaction(
        &mut self,
        transaction_type: TransactionType,
        package_name: &str,
        old_version: Option<&str>,
        new_version: Option<&str>,
    ) -> (r: Result<u64, PkgError>)
        requires
            old(self).wf(),
        ensures
            final(self).wf(),
            final(self).installed_seq() == old(self).installed_seq(),
            final(self).indices_seq() == old(self).indices_seq(),
            match r {
                Ok(id) => {
                    &&& id == old(self).next_tx_id()
                    &&& final(self).next_tx_id() == old(self).next_tx_id() + 1
                    &&& final(self).transactions_seq().len() == old(self).transactions_seq().len() + 1
                    &&& final(self).transactions_seq().drop_last() == old(self).transactions_seq()
                    &&& {
                        let rec = final(self).transactions_seq().last();
                        &&& rec.id == id
                        &&& rec.transaction_type == transaction_type
                        &&& rec.package_name@ == package_name@
                        &&& match old_version {
                            Some(v) => rec.old_version matches Some(o) && o@ == v@,
                            None => rec.old_version is None,
                        }
                        &&& match new_version {
                            Some(v) => rec.new_version matches Some(o) && o@ == v@,
                            None => rec.new_version is None,
                        }
                        &&& rec.status is Pending
                        &&& rec.error_message is None
                    }
                },
                Err(e) => {
                    &&& old(self).next_tx_id() == u64::MAX
                    &&& e is DatabaseError
                    &&& final(self).transactions_seq() == old(self).transactions_seq()
                    &&& final(self).next_tx_id() == old(self).next_tx_id()
                },
            },
    {
        if self.next_transaction_id == u64::MAX {
            return Err(PkgError::DatabaseError(package_name.to_owned()));
        }
        let id = self.next_transaction_id;
        let rec = TransactionRecord {
            id,
            transaction_type,
            package_name: package_name.to_owned(),
            old_version: match old_version {
                Some(v) => Some(v.to_owned()),
                None => None,
            },
            new_version: match new_version {
                Some(v) => Some(v.to_owned()),
                None => None,
            },
            status: TransactionStatus::Pending,
            error_message: None,
        };
        self.transactions.push(rec);
        self.next_transaction_id = id + 1;
        assert(self.transactions@.drop_last() =~= old(self).transactions_seq());
        Ok(id)
    }

    /// Marks the pending record completed; fails when the id is unknown.
    pub fn complete_transaction(&mut self, transaction_id: u64) -> (r: Result<(), PkgError>)
        requires
            old(self).wf(),
        ensures
            final(self).wf(),
            final(self).installed_seq() == old(self).installed_seq(),
            final(self).indices_seq() == old(self).indices_seq(),
            final(self).next_tx_id() == old(self).next_tx_id(),
            match r {
                Ok(_) => exists|i: int|
                    0 <= i < old(self).transactions_seq().len() && (#[trigger] old(self).transactions_seq()[i]).id == transaction_id && final(self).transactions_seq()
                        == old(self).transactions_seq().update(
                        i,
                        with_status(old(self).transactions_seq()[i], TransactionStatus::Completed),
                    ),
                Err(e) => {
                    &&& forall|i: int|
                        0 <= i < old(self).transactions_seq().len() ==> (#[trigger] old(self).transactions_seq()[i]).id != transaction_id
                    &&& e is DatabaseError
                    &&& final(self).transactions_seq() == old(self).transactions_seq()
                },
            },
    {
        let ghost ts = self.transactions@;
        let mut i: usize = 0;
        while i < self.transactions.len()
            invariant
                i <= self.transactions@.len(),
                ts == old(self).transactions_seq(),
                self.transactions@ == ts,
                self.installed@ == old(self).installed_seq(),
                self.indices@ == old(self).indices_seq(),
                self.next_transaction_id == old(self).next_tx_id(),
                old(self).wf(),
                forall|k: int| 0 <= k < i ==> (#[trigger] ts[k]).id != transaction_id,
            decreases self.transactions@.len() - i,
        {
            if self.transactions[i].id == transaction_id {
                let rec = &self.transactions[i];
                let rec2 = TransactionRecord {
                    id: rec.id,
                    transaction_type: rec.transaction_type,
                    package_name: rec.package_name.clone(),
                    old_version: crate::types::clone_opt_string(&rec.old_version),
                    new_version: crate::types::clone_opt_string(&rec.new_version),
                    status: TransactionStatus::Completed,
                    error_message: crate::types::clone_opt_string(&rec.error_message),
                };
                assert(rec2 == with_status(ts[i as int], TransactionStatus::Completed));
                self.transactions.set(i, rec2);
                proof {
                    assert forall|a: int|
                        0 <= a < self.transactions@.len() implies (
                    #[trigger] self.transactions@[a]).id == ts[a].id by {
                        if a != i {
                            assert(self.transactions@[a] == ts[a]);
                        }
                    }
                }
                return Ok(());
            }
            i = i + 1;
        }
        Err(PkgError::DatabaseError("transaction id unknown".to_owned()))
    }

    /// Marks the pending record failed, keeping the error text; fails when
    /// the id is unknown.
    pub fn fail_transaction(&mut self, transaction_id: u64, error: &str) -> (r: Result<
        (),
        PkgError,
    >)
        requires
            old(self).wf(),
        ensures
            final(self).wf(),
            final(self).installed_seq() == old(self).installed_seq(),
            final(self).indices_seq() == old(self).indices_seq(),
            final(self).next_tx_id() == old(self).next_tx_id(),
            match r {
                Ok(_) => exists|i: int|
                    {
                        &&& 0 <= i < old(self).transactions_seq().len()
                        &&& (#[trigger] old(self).transactions_seq()[i]).id == transaction_id
                        &&& final(self).transactions_seq().len() == old(self).transactions_seq().len()
                        &&& final(self).transactions_seq()[i].id == transaction_id
                        &&& final(self).transactions_seq()[i].status is Failed
                        &&& final(self).transactions_seq()[i].error_message matches Some(m)
                            && m@ == error@
                        &&& final(self).transactions_seq()[i].transaction_type == old(self).transactions_seq()[i].transaction_type
                        &&& final(self).transactions_seq()[i].package_name == old(self).transactions_seq()[i].package_name
                        &&& forall|j: int|
                            0 <= j < old(self).transactions_seq().len() && j != i ==> final(self).transactions_seq()[j] == old(self).transactions_seq()[j]
                    },
                Err(e) => {
                    &&& forall|i: int|
                        0 <= i < old(self).transactions_seq().len() ==> (#[trigger] old(self).transactions_seq()[i]).id != transaction_id
                    &&& e is DatabaseError
                    &&& final(self).transactions_seq() == old(self).transactions_seq()
                },
            },
    {
        let ghost ts = self.transactions@;
        let mut i: usize = 0;
        while i < self.transactions.len()
            invariant
                i <= self.transactions@.len(),
                ts == old(self).transactions_seq(),
                self.transactions@ == ts,
                self.installed@ == old(self).installed_seq(),
                self.indices@ == old(self).indices_seq(),
                self.next_transaction_id == old(self).next_tx_id(),
                old(self).wf(),
                forall|k: int| 0 <= k < i ==> (#[trigger] ts[k]).id != transaction_id,
            decreases self.transactions@.len() - i,
        {
            if self.transactions[i].id == transaction_id {
                let rec = &self.transactions[i];
                let rec2 = TransactionRecord {
                    id: rec.id,
                    transaction_type: rec.transaction_type,
                    package_name: rec.package_name.clone(),
                    old_version: crate::types::clone_opt_string(&rec.old_version),
                    new_version: crate::types::clone_opt_string(&rec.new_version),
                    status: TransactionStatus::Failed,
                    error_message: Some(error.to_owned()),
                };
                self.transactions.set(i, rec2);
                proof {
                    assert forall|a: int|
                        0 <= a < self.transactions@.len() implies (
                    #[trigger] self.transactions@[a]).id == ts[a].id by {
                        if a != i {
                            assert(self.transactions@[a] == ts[a]);
                        }
                    }
                }
                return Ok(());
            }
            i = i + 1;
        }
        Err(PkgError::DatabaseError("transaction id unknown".to_owned()))
    }

    proof fn lemma_explicit_count_bounds(s: Seq<InstalledPackage>)
        ensures
            0 <= explicit_count(s) <= s.len(),
        decreases s.len(),
    {
        if s.len() > 0 {
            Self::lemma_explicit_count_bounds(s.drop_last());
        }
    }

    proof fn lemma_sizes_sum_nonneg(s: Seq<InstalledPackage>)
        ensures
            sizes_sum(s) >= 0,
        decreases s.len(),
    {
        if s.len() > 0 {
            Self::lemma_sizes_sum_nonneg(s.drop_last());
        }
    }

    /// Is a string with that view among `v`?
    fn name_in(v: &Vec<String>, name: &str) -> (r: bool)
        ensures
            r == exists|j: int| 0 <= j < v@.len() && (#[trigger] v@[j])@ == name@,
    {
        let mut j: usize = 0;
        while j < v.len()
            invariant
                j <= v@.len(),
                forall|k: int| 0 <= k < j ==> (#[trigger] v@[k])@ != name@,
            decreases v@.len() - j,
        {
            if str_eq(v[j].as_str(), name) {
                return true;
            }
            j = j + 1;
        }
        false
    }

    /// Counts over the ledger: how many packages are installed, explicitly
    /// or as dependencies, how many are orphaned, how many distinct names
    /// the catalogs offer, how many repositories are cached (all enabled,
    /// by the ledger invariant), and the total recorded size (saturating).
    pub fn get_stats(&self) -> (stats: DatabaseStats)
        ensures
            stats.installed_packages == self.installed_seq().len(),
            stats.explicit_packages == explicit_count(self.installed_seq()),
            stats.dependency_packages == self.installed_seq().len() - explicit_count(
                self.installed_seq(),
            ),
            stats.orphaned_packages == orphans_of(self.installed_seq()).len(),
            stats.available_packages == dedup_names(catalog_names(self.indices_seq())).len(),
            stats.repositories == self.indices_seq().len(),
            stats.total_installed_size == if sizes_sum(self.installed_seq()) > u64::MAX {
                u64::MAX as int
            } else {
                sizes_sum(self.installed_seq())
            },
    {
        let ghost s = self.installed@;
        // explicit installs and total size in one pass
        let mut explicit: u64 = 0;
        let mut total: u64 = 0;
        let mut i: usize = 0;
        while i < self.installed.len()
            invariant
                i <= self.installed@.len(),
                s == self.installed@,
                explicit == explicit_count(s.take(i as int)),
                explicit <= i,
                total == if sizes_sum(s.take(i as int)) > u64::MAX {
                    u64::MAX as int
                } else {
                    sizes_sum(s.take(i as int))
                },
            decreases self.installed@.len() - i,
        {
            proof {
                assert(s.take(i + 1).drop_last() =~= s.take(i as int));
                assert(s.take(i + 1).last() == s[i as int]);
                Self::lemma_sizes_sum_nonneg(s.take(i as int));
            }
            let p = &self.installed[i];
            let is_explicit = match p.install_reason {
                InstallReason::Explicit => true,
                _ => false,
            };
            if is_explicit {
                explicit = explicit + 1;
            }
            let sz = p.package.size_bytes;
            if sz > u64::MAX - total {
                total = u64::MAX;
            } else {
                total = total + sz;
            }
            i = i + 1;
        }
        assert(s.take(s.len() as int) =~= s);
        // distinct catalog names
        let ghost ind = self.indices@;
        let mut names: Vec<String> = Vec::new();
        let mut a: usize = 0;
        while a < self.indices.len()
            invariant
                a <= self.indices@.len(),
                ind == self.indices@,
                crate::types::strings_view(names@) =~~= dedup_names(
                    catalog_names(ind.take(a as int)),
                ),
                forall|n: Seq<char>|
                    #[trigger] crate::types::strings_view(names@).contains(n)
                        == catalog_names(ind.take(a as int)).contains(n),
            decreases self.indices@.len() - a,
        {
            let entries = &self.indices[a].packages;
            let ghost base = catalog_names(ind.take(a as int));
            let mut k: usize = 0;
            while k < entries.len()
                invariant
                    k <= entries@.len(),
                    ind == self.indices@,
                    a < ind.len(),
                    entries@ == ind[a as int].packages@,
                    base == catalog_names(ind.take(a as int)),
                    crate::types::strings_view(names@) =~~= dedup_names(
                        base + entry_names(entries@.take(k as int)),
                    ),
                    forall|n: Seq<char>|
                        #[trigger] crate::types::strings_view(names@).contains(n) == (base
                            + entry_names(entries@.take(k as int))).contains(n),
                decreases entries@.len() - k,
            {
                let ghost pfx = base + entry_names(entries@.take(k as int));
                let ghost x = entries@[k as int].name@;
                proof {
                    assert(entries@.take(k + 1).drop_last() =~= entries@.take(k as int));
                    assert(entries@.take(k + 1).last() == entries@[k as int]);
                    assert(entry_names(entries@.take(k + 1)) == entry_names(
                        entries@.take(k as int),
                    ).push(x));
                    assert(base + entry_names(entries@.take(k + 1)) =~= pfx.push(x));
                    assert((pfx.push(x)).drop_last() =~= pfx);
                    assert((pfx.push(x)).last() == x);
                }
                let present = Self::name_in(&names, entries[k].name.as_str());
                proof {
                    lemma_name_view_contains(names@, x);
                }
                if !present {
                    let ghost names_old = names@;
                    names.push(entries[k].name.clone());
                    proof {
                        assert(names@ == names_old.push(names@.last()));
                        assert(names@.last()@ == x);
                        lemma_dedup_push(names_old, names@.last(), pfx, x);
                    }
                } else {
                    proof {
                        lemma_dedup_skip(names@, pfx, x);
                    }
                }
                k = k + 1;
            }
            proof {
                assert(entries@.take(entries@.len() as int) =~= entries@);
                assert(ind.take(a + 1).drop_last() =~= ind.take(a as int));
                assert(ind.take(a + 1).last() == ind[a as int]);
                assert(catalog_names(ind.take(a + 1)) == base + entry_names(
                    ind[a as int].packages@,
                ));
            }
            a = a + 1;
        }
        assert(ind.take(ind.len() as int) =~= ind);
        proof {
            Self::lemma_explicit_count_bounds(s);
        }
        let installed_packages = self.installed.len() as u64;
        let orphans = self.find_orphans();
        DatabaseStats {
            installed_packages,
            explicit_packages: explicit,
            dependency_packages: installed_packages - explicit,
            orphaned_packages: orphans.len() as u64,
            available_packages: names.len() as u64,
            repositories: self.indices.len() as u64,
            total_installed_size: total,
        }
    }

    /// Sweeps cached catalogs whose recorded sync time lies more than
    /// `keep_days` days before `now`; catalogs without a recorded time are
    /// kept. Returns how many were dropped. The ledger of installed
    /// packages and the audit log are untouched.
    pub fn clean_cache(&mut self, keep_days: u64, now: u64) -> (r: u64)
        requires
            old(self).wf(),
        ensures
            final(self).wf(),
            final(self).installed_seq() == old(self).installed_seq(),
            final(self).transactions_seq() == old(self).transactions_seq(),
            final(self).next_tx_id() == old(self).next_tx_id(),
            final(self).indices_seq() == fresh_indices(
                old(self).indices_seq(),
                crate::cache::cutoff_of(now, keep_days),
            ),
            r == old(self).indices_seq().len() - final(self).indices_seq().len(),
    {
        let cutoff: u64 = if keep_days <= now / 86400 {
            proof {
                assert(keep_days * 86400 <= (now / 86400) * 86400 <= now) by (nonlinear_arith)
                    requires
                        keep_days <= now / 86400,
                ;
            }
            now - keep_days * 86400
        } else {
            proof {
                assert(keep_days * 86400 > now) by (nonlinear_arith)
                    requires
                        keep_days > now / 86400,
                ;
            }
            0
        };
        let ghost s0 = self.indices@;
        let total = self.indices.len();
        assert(s0.len() == total);
        let mut removed: u64 = 0;
        let mut i: usize = 0;
        while i < self.indices.len()
            invariant
                i <= self.indices@.len(),
                s0.len() <= usize::MAX,
                cutoff == crate::cache::cutoff_of(now, keep_days),
                self.installed@ == old(self).installed_seq(),
                self.transactions@ == old(self).transactions_seq(),
                self.next_transaction_id == old(self).next_tx_id(),
                s0 == old(self).indices_seq(),
                unique_names(self.installed@),
                tx_wf(self.transactions@, self.next_transaction_id),
                indices_wf(self.indices@),
                forall|k: int| 0 <= k < i ==> index_fresh(#[trigger] self.indices@[k], cutoff as int),
                fresh_indices(self.indices@, cutoff as int) == fresh_indices(s0, cutoff as int),
                removed + self.indices@.len() == s0.len(),
            decreases self.indices@.len() - i,
        {
            let stale = match self.indices[i].repository.last_update {
                Some(t) => t < cutoff,
                None => false,
            };
            if stale {
                let ghost cur = self.indices@;
                proof {
                    assert(!index_fresh(cur[i as int], cutoff as int));
                    lemma_fresh_indices_remove(cur, cutoff as int, i as int);
                }
                self.indices.remove(i);
                removed = removed + 1;
                proof {
                    assert(self.indices@ == cur.remove(i as int));
                    assert forall|a: int, b: int|
                        0 <= a < b < self.indices@.len() implies (
                    #[trigger] self.indices@[a]).repository.name@ != (
                    #[trigger] self.indices@[b]).repository.name@ && (
                    self.indices@[a]).repository.priority
                        <= (self.indices@[b]).repository.priority by {
                        let a2: int = if a < i { a } else { a + 1 };
                        let b2: int = if b < i { b } else { b + 1 };
                        assert(self.indices@[a] == cur[a2]);
                        assert(self.indices@[b] == cur[b2]);
                    }
                    assert forall|k: int| 0 <= k < self.indices@.len() implies index_wf(
                        #[trigger] self.indices@[k],
                    ) by {
                        let k2: int = if k < i { k } else { k + 1 };
                        assert(self.indices@[k] == cur[k2]);
                    }
                    assert forall|k: int| 0 <= k < i implies index_fresh(
                        #[trigger] self.indices@[k],
                        cutoff as int,
                    ) by {
                        assert(self.indices@[k] == cur[k]);
                    }
                }
            } else {
                i = i + 1;
            }
        }
        proof {
            lemma_fresh_indices_identity(self.indices@, cutoff as int);
        }
        removed
    }

    /// The distinct group names defined across the cached catalogs, each at
    /// its first occurrence in priority order.
    #[verifier::rlimit(100)]
    #[verifier::spinoff_prover]
    pub fn get_groups(&self) -> (r: Vec<String>)
        ensures
            crate::types::strings_view(r@) == dedup_names(group_names(self.indices_seq())),
    {
        let ghost ind = self.indices@;
        let mut names: Vec<String> = Vec::new();
        let mut a: usize = 0;
        while a < self.indices.len()
            invariant
                a <= self.indices@.len(),
                ind == self.indices@,
                crate::types::strings_view(names@) =~~= dedup_names(
                    group_names(ind.take(a as int)),
                ),
                forall|n: Seq<char>|
                    #[trigger] crate::types::strings_view(names@).contains(n) == group_names(
                        ind.take(a as int),
                    ).contains(n),
            decreases self.indices@.len() - a,
        {
            let gs = &self.indices[a].groups;
            let ghost base = group_names(ind.take(a as int));
            let mut k: usize = 0;
            while k < gs.len()
                invariant
                    k <= gs@.len(),
                    ind == self.indices@,
                    a < ind.len(),
                    gs@ == ind[a as int].groups@,
                    base == group_names(ind.take(a as int)),
                    crate::types::strings_view(names@) =~~= dedup_names(
                        base + group_entry_names(gs@.take(k as int)),
                    ),
                    forall|n: Seq<char>|
                        #[trigger] crate::types::strings_view(names@).contains(n) == (base
                            + group_entry_names(gs@.take(k as int))).contains(n),
                decreases gs@.len() - k,
            {
                let ghost pfx = base + group_entry_names(gs@.take(k as int));
                let ghost x = gs@[k as int].name@;
                proof {
                    assert(gs@.take(k + 1).drop_last() =~= gs@.take(k as int));
                    assert(gs@.take(k + 1).last() == gs@[k as int]);
                    assert(group_entry_names(gs@.take(k + 1)) == group_entry_names(
                        gs@.take(k as int),
                    ).push(x));
                    assert(base + group_entry_names(gs@.take(k + 1)) =~= pfx.push(x));
                    assert((pfx.push(x)).drop_last() =~= pfx);
                    assert((pfx.push(x)).last() == x);
                }
                let present = Self::name_in(&names, gs[k].name.as_str());
                proof {
                    lemma_name_view_contains(names@, x);
                }
                if !present {
                    let ghost names_old = names@;
                    names.push(gs[k].name.clone());
                    proof {
                        assert(names@ == names_old.push(names@.last()));
                        assert(names@.last()@ == x);
                        lemma_dedup_push(names_old, names@.last(), pfx, x);
                    }
                } else {
                    proof {
                        lemma_dedup_skip(names@, pfx, x);
                    }
                }
                k = k + 1;
            }
            proof {
                assert(gs@.take(gs@.len() as int) =~= gs@);
                assert(ind.take(a + 1).drop_last() =~= ind.take(a as int));
                assert(ind.take(a + 1).last() == ind[a as int]);
                assert(group_names(ind.take(a + 1)) == base + group_entry_names(
                    ind[a as int].groups@,
                ));
            }
            a = a + 1;
        }
        assert(ind.take(ind.len() as int) =~= ind);
        names
    }

    /// The members of the named group, taken from the highest-priority
    /// repository that defines it; empty when none does.
    pub fn get_group_members(&self, group_name: &str) -> (r: Vec<String>)
        ensures
            crate::types::strings_view(r@) == group_members_in(self.indices_seq(), group_name@),
    {
        let ghost ind = self.indices@;
        assert(ind.skip(0) =~= ind);
        let mut a: usize = 0;
        while a < self.indices.len()
            invariant
                a <= self.indices@.len(),
                ind == self.indices@,
                group_members_in(ind, group_name@) == group_members_in(
                    ind.skip(a as int),
                    group_name@,
                ),
            decreases self.indices@.len() - a,
        {
            let gs = &self.indices[a].groups;
            assert(ind.skip(a as int)[0] == ind[a as int]);
            assert(gs@.skip(0) =~= gs@);
            let mut k: usize = 0;
            while k < gs.len()
                invariant
                    k <= gs@.len(),
                    ind == self.indices@,
                    a < ind.len(),
                    gs@ == ind[a as int].groups@,
                    group_members_in(ind, group_name@) == group_members_in(
                        ind.skip(a as int),
                        group_name@,
                    ),
                    find_group(gs@, group_name@) == find_group(gs@.skip(k as int), group_name@),
                decreases gs@.len() - k,
            {
                assert(gs@.skip(k as int)[0] == gs@[k as int]);
                if str_eq(gs[k].name.as_str(), group_name) {
                    let members = crate::types::clone_strings(&gs[k].members);
                    proof {
                        assert(find_group(gs@.skip(k as int), group_name@) == Some(
                            crate::types::strings_view(gs@[k as int].members@),
                        ));
                        assert(find_group(gs@, group_name@) == Some(
                            crate::types::strings_view(gs@[k as int].members@),
                        ));
                        assert(ind.skip(a as int)[0].groups@ == gs@);
                        assert(group_members_in(ind.skip(a as int), group_name@)
                            == crate::types::strings_view(gs@[k as int].members@));
                        assert(crate::types::strings_view(members@) == crate::types::strings_view(
                            gs@[k as int].members@,
                        ));
                        assert(crate::types::strings_view(members@) == group_members_in(
                            ind,
                            group_name@,
                        ));
                    }
                    return members;
                }
                proof {
                    assert(gs@.skip(k as int).drop_first() =~= gs@.skip(k + 1));
                }
                k = k + 1;
            }
            proof {
                assert(gs@.skip(gs@.len() as int).len() == 0);
                assert(find_group(gs@, group_name@) is None);
                assert(ind.skip(a as int).drop_first() =~= ind.skip(a + 1));
            }
            a = a + 1;
        }
        proof {
            assert(ind.skip(ind.len() as int).len() == 0);
        }
        Vec::new()
    }

    /// Does the installed package list `name` among its dependencies?
    fn package_lists_dep(p: &InstalledPackage, name: &str) -> (r: bool)
        ensures
            r == pkg_depends_on(*p, name@),
    {
        let deps = &p.package.dependencies;
        let mut j: usize = 0;
        while j < deps.len()
            invariant
                j <= deps@.len(),
                deps@ == p.package.dependencies@,
                forall|k: int| 0 <= k < j ==> deps@[k].name@ != name@,
            decreases deps@.len() - j,
        {
            if str_eq(deps[j].name.as_str(), name) {
                return true;
            }
            j = j + 1;
        }
        false
    }
}

} // verus!
