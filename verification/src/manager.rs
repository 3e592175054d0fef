//! The package manager: dependency resolution, the install, remove and
//! update workflows, and catalog search, over the ledger and the cache.

use vstd::prelude::*;
use vstd::multiset::Multiset;
use vstd::seq_lib::lemma_multiset_commutative;
use crate::cache::PackageCache;
use crate::database::{
    catalog_names, dependents_of, has_installed, without_name, PackageDatabase, TransactionType,
};
use crate::errors::PkgError;
use crate::strutil::str_eq;
use crate::types::{
    InstalledFile, InstalledPackage, InstallReason, Package, PackageConfig, PackageEntry,
    PackageView, Repository, RepositoryIndex,
};
use crate::version::{req_matches, req_well_formed, version_lt, Version};

verus! {

/// Repositories ordered by rising priority value (lower value preferred).
pub open spec fn repos_sorted(s: Seq<Repository>) -> bool {
    forall|i: int, j: int|
        0 <= i < j < s.len() ==> (#[trigger] s[i]).priority <= (#[trigger] s[j]).priority
}

/// The dependency `d` is met by what is already installed: a package of the
/// dependency's name is installed, the requirement range parses, and the
/// installed version lies in the range.
pub open spec fn dep_satisfied(s: Seq<InstalledPackage>, d: crate::types::DependencyView) -> bool {
    exists|i: int|
        {
            &&& 0 <= i < s.len()
            &&& (#[trigger] s[i]).package.name@ == d.name
            &&& req_well_formed(d.version_req)
            &&& req_matches(
                d.version_req,
                s[i].package.version.major,
                s[i].package.version.minor,
                s[i].package.version.patch,
            )
        }
}

/// The package view appears in some cached catalog.
pub open spec fn in_catalog(is: Seq<RepositoryIndex>, pv: PackageView) -> bool {
    exists|a: int, b: int, c: int|
        {
            &&& 0 <= a < is.len()
            &&& 0 <= b < (#[trigger] is[a]).packages@.len()
            &&& 0 <= c < (#[trigger] is[a].packages@[b]).versions@.len()
            &&& (#[trigger] is[a].packages@[b].versions@[c])@ == pv
        }
}

/// The first catalog entry of that name, front first.
pub open spec fn first_entry(es: Seq<PackageEntry>, name: Seq<char>) -> Option<PackageEntry>
    decreases es.len(),
{
    if es.len() == 0 {
        None
    } else if es[0].name@ == name {
        Some(es[0])
    } else {
        first_entry(es.drop_first(), name)
    }
}

/// The latest of the known versions; with equal versions the later entry
/// wins.
pub open spec fn latest_in(ps: Seq<Package>) -> Option<Package>
    decreases ps.len(),
{
    if ps.len() == 0 {
        None
    } else {
        match latest_in(ps.drop_last()) {
            None => Some(ps.last()),
            Some(m) => if version_lt(ps.last().version, m.version) {
                Some(m)
            } else {
                Some(ps.last())
            },
        }
    }
}

/// What `find_package` returns: the latest version of the name from the
/// highest-priority repository that carries it.
pub open spec fn find_spec(is: Seq<RepositoryIndex>, name: Seq<char>) -> Option<Package>
    decreases is.len(),
{
    if is.len() == 0 {
        None
    } else {
        match first_entry(is[0].packages@, name) {
            Some(e) => match latest_in(e.versions@) {
                Some(p) => Some(p),
                None => find_spec(is.drop_first(), name),
            },
            None => find_spec(is.drop_first(), name),
        }
    }
}

/// The view of an optional package.
pub open spec fn opt_pkg_view(o: Option<Package>) -> Option<PackageView> {
    match o {
        Some(p) => Some(p@),
        None => None,
    }
}

/// The package manager: configuration, ledger, cache, and the configured
/// repositories in priority order.
pub struct PackageManager {
    pub config: PackageConfig,
    pub database: PackageDatabase,
    pub cache: PackageCache,
    pub repositories: Vec<Repository>,
}

impl PackageManager {
    /// A manager over a fresh ledger and an empty cache model; the given
    /// repositories are ordered by priority.
    pub fn new(config: PackageConfig, repositories: Vec<Repository>) -> (m: PackageManager)
        ensures
            m.database.wf(),
            m.database.installed_seq() == Seq::<InstalledPackage>::empty(),
            m.database.indices_seq() == Seq::<RepositoryIndex>::empty(),
            m.database.transactions_seq() == Seq::<
                crate::database::TransactionRecord,
            >::empty(),
            m.database.next_tx_id() == 0,
            m.cache.wf(),
            m.cache.dir_view() == config.cache_dir@,
            m.cache.entries_seq() == Seq::<crate::cache::CacheEntry>::empty(),
            repos_sorted(m.repositories@),
            m.repositories@.to_multiset() == repositories@.to_multiset(),
            m.config == config,
    {
        let cache = PackageCache::new(config.cache_dir.as_str());
        let sorted = Self::sort_repositories(repositories);
        PackageManager { config, database: PackageDatabase::new(), cache, repositories: sorted }
    }

    /// Orders repositories by rising priority value, keeping the same
    /// collection of repositories.
    pub fn sort_repositories(repos: Vec<Repository>) -> (r: Vec<Repository>)
        ensures
            repos_sorted(r@),
            r@.to_multiset() == repos@.to_multiset(),
    {
        let mut src = repos;
        let mut out: Vec<Repository> = Vec::new();
        proof {
            src@.to_multiset_ensures();
        }
        proof {
            broadcast use vstd::multiset::group_multiset_axioms;

            out@.to_multiset_ensures();
            assert(out@.to_multiset().add(src@.to_multiset()) =~= src@.to_multiset()) by {
                assert forall|a: Repository| out@.to_multiset().count(a) == 0 by {
                    assert(!out@.contains(a));
                }
            }
        }
        while src.len() > 0
            invariant
                repos_sorted(out@),
                out@.to_multiset().add(src@.to_multiset()) == repos@.to_multiset(),
            decreases src@.len(),
        {
            let ghost src0 = src@;
            let x = match src.pop() {
                Some(x) => x,
                None => {
                    proof {
                        assert(false);
                    }
                    return out;
                },
            };
            proof {
                src0.to_multiset_ensures();
                assert(src@ =~= src0.remove(src0.len() - 1));
                assert(src@.to_multiset() =~= src0.to_multiset().remove(x));
                assert(src0.to_multiset().contains(x));
            }
            let ghost out0 = out@;
            let mut q: usize = 0;
            while q < out.len() && out[q].priority <= x.priority
                invariant
                    q <= out@.len(),
                    out@ == out0,
                    forall|k: int| 0 <= k < q ==> (#[trigger] out0[k]).priority <= x.priority,
                decreases out@.len() - q,
            {
                q = q + 1;
            }
            proof {
                if q < out0.len() {
                    assert(out0[q as int].priority > x.priority);
                    assert forall|k: int| q <= k < out0.len() implies (
                    #[trigger] out0[k]).priority > x.priority by {
                        if k > q {
                            assert(repos_sorted(out0));
                            assert(out0[q as int].priority <= out0[k].priority);
                        }
                    }
                }
            }
            out.insert(q, x);
            proof {
                let t = out@;
                assert(t == out0.insert(q as int, x));
                assert forall|a: int, b: int|
                    0 <= a < b < t.len() implies (#[trigger] t[a]).priority <= (
                #[trigger] t[b]).priority by {
                    if a == q {
                        assert(t[b] == out0[b - 1]);
                    } else if b == q {
                        assert(t[a] == out0[a]);
                    } else {
                        let a2: int = if a < q { a } else { a - 1 };
                        let b2: int = if b < q { b } else { b - 1 };
                        assert(t[a] == out0[a2]);
                        assert(t[b] == out0[b2]);
                    }
                }
                Self::lemma_insert_multiset(out0, q as int, x);
                assert(out@.to_multiset().add(src@.to_multiset()) =~= repos@.to_multiset());
            }
        }
        proof {
            broadcast use vstd::multiset::group_multiset_axioms;

            src@.to_multiset_ensures();
            assert(out@.to_multiset().add(src@.to_multiset()) =~= out@.to_multiset()) by {
                assert(forall|a: Repository| src@.to_multiset().count(a) == 0);
            }
        }
        out
    }

    /// Inserting an element anywhere adds exactly it to the collection.
    proof fn lemma_insert_multiset(t: Seq<Repository>, j: int, x: Repository)
        requires
            0 <= j <= t.len(),
        ensures
            t.insert(j, x).to_multiset() == t.to_multiset().insert(x),
    {
        broadcast use vstd::multiset::group_multiset_axioms;

        let a = t.subrange(0, j);
        let b = t.subrange(j, t.len() as int);
        assert(t =~= a + b);
        assert(t.insert(j, x) =~= a.push(x) + b);
        lemma_multiset_commutative(a, b);
        lemma_multiset_commutative(a.push(x), b);
        a.to_multiset_ensures();
        assert(a.push(x).to_multiset() =~= a.to_multiset().insert(x));
        assert(a.to_multiset().insert(x).add(b.to_multiset()) =~= a.to_multiset().add(
            b.to_multiset(),
        ).insert(x));
    }

    /// Entry `b` of one catalog contributes its name to `catalog_names`.
    proof fn lemma_entry_name_in_catalog(is: Seq<RepositoryIndex>, a: int, b: int)
        requires
            0 <= a < is.len(),
            0 <= b < is[a].packages@.len(),
        ensures
            catalog_names(is).contains(is[a].packages@[b].name@),
        decreases is.len(),
    {
        crate::database::lemma_entry_names_member(is[a].packages@, b);
        if a == is.len() - 1 {
            let t = crate::database::entry_names(is[a].packages@);
            let k = choose|k: int| 0 <= k < t.len() && t[k] == is[a].packages@[b].name@;
            assert(catalog_names(is)[catalog_names(is.drop_last()).len() + k] == t[k]);
        } else {
            assert(is.drop_last()[a] == is[a]);
            Self::lemma_entry_name_in_catalog(is.drop_last(), a, b);
            let t = catalog_names(is.drop_last());
            let k = choose|k: int| 0 <= k < t.len() && t[k] == is[a].packages@[b].name@;
            assert(catalog_names(is)[k] == t[k]);
        }
    }

    /// The latest version is one of the known versions.
    proof fn lemma_latest_member(ps: Seq<Package>) -> (c: int)
        requires
            latest_in(ps) is Some,
        ensures
            0 <= c < ps.len(),
            ps[c] == latest_in(ps)->Some_0,
        decreases ps.len(),
    {
        if ps.len() == 0 {
            0
        } else {
            match latest_in(ps.drop_last()) {
                None => ps.len() - 1,
                Some(m) => {
                    if version_lt(ps.last().version, m.version) {
                        let c = Self::lemma_latest_member(ps.drop_last());
                        assert(ps.drop_last()[c] == ps[c]);
                        c
                    } else {
                        ps.len() - 1
                    }
                },
            }
        }
    }

    /// The latest known version of a package across the cached catalogs,
    /// consulting repositories in priority order.
    pub fn find_package(&self, name: &str) -> (r: Option<Package>)
        requires
            self.database.wf(),
        ensures
            opt_pkg_view(r) == opt_pkg_view(find_spec(self.database.indices_seq(), name@)),
            r matches Some(p) ==> {
                &&& p@.name == name@
                &&& in_catalog(self.database.indices_seq(), p@)
                &&& catalog_names(self.database.indices_seq()).contains(name@)
            },
    {
        let indices = self.database.get_repository_indices();
        let ghost ind = self.database.indices_seq();
        assert(ind.skip(0) =~= ind);
        let mut a: usize = 0;
        while a < indices.len()
            invariant
                a <= indices@.len(),
                indices@ == ind,
                ind == self.database.indices_seq(),
                crate::database::indices_wf(ind),
                find_spec(ind, name@) == find_spec(ind.skip(a as int), name@),
            decreases indices@.len() - a,
        {
            let es = &indices[a].packages;
            assert(ind.skip(a as int)[0] == ind[a as int]);
            assert(es@.skip(0) =~= es@);
            let mut b: usize = 0;
            let mut found = false;
            while b < es.len() && !found
                invariant
                    b <= es@.len(),
                    indices@ == ind,
                    ind == self.database.indices_seq(),
                    a < ind.len(),
                    crate::database::indices_wf(ind),
                    es@ == ind[a as int].packages@,
                    find_spec(ind, name@) == find_spec(ind.skip(a as int), name@),
                    !found ==> first_entry(es@, name@) == first_entry(
                        es@.skip(b as int),
                        name@,
                    ),
                    found ==> b >= 1 && b - 1 < es@.len() && first_entry(es@, name@) == Some(
                        es@[b - 1],
                    ) && es@[b - 1].name@ == name@,
                decreases es@.len() - b,
            {
                assert(es@.skip(b as int)[0] == es@[b as int]);
                if str_eq(es[b].name.as_str(), name) {
                    found = true;
                } else {
                    assert(es@.skip(b as int).drop_first() =~= es@.skip(b + 1));
                }
                b = b + 1;
            }
            if found {
                let entry = &es[b - 1];
                // the latest version among this entry, later entries win ties
                let ghost ps = entry.versions@;
                assert(ps.take(0) =~= Seq::<Package>::empty());
                let mut best: Option<&Package> = None;
                let mut c: usize = 0;
                while c < entry.versions.len()
                    invariant
                        c <= ps.len(),
                        ps == entry.versions@,
                        match best {
                            Some(m) => latest_in(ps.take(c as int)) matches Some(mm) && mm == *m,
                            None => c == 0 && latest_in(ps.take(c as int)) is None,
                        },
                    decreases ps.len() - c,
                {
                    proof {
                        assert(ps.take(c + 1).drop_last() =~= ps.take(c as int));
                        assert(ps.take(c + 1).last() == ps[c as int]);
                    }
                    let cur = &entry.versions[c];
                    best = match best {
                        Some(m) => {
                            if cur.version.lt(&m.version) {
                                Some(m)
                            } else {
                                Some(cur)
                            }
                        },
                        None => Some(cur),
                    };
                    c = c + 1;
                }
                assert(ps.take(ps.len() as int) =~= ps);
                match best {
                    Some(m) => {
                        let r = m.clone();
                        proof {
                            assert(first_entry(ind[a as int].packages@, name@) == Some(
                                es@[b - 1],
                            ));
                            assert(find_spec(ind.skip(a as int), name@) == Some(*m));
                            let c0 = Self::lemma_latest_member(ps);
                            Self::lemma_entry_name_in_catalog(ind, a as int, b - 1);
                            assert(in_catalog(ind, r@)) by {
                                assert(ind[a as int].packages@[b - 1].versions@[c0]@ == r@);
                            }
                            assert(r@.name == name@) by {
                                assert(crate::database::index_wf(ind[a as int]));
                                assert(ind[a as int].packages@[b - 1].versions@[c0].name@
                                    == ind[a as int].packages@[b - 1].name@);
                            }
                            assert(find_spec(ind, name@) == Some(*m));
                            assert(r@ == (*m)@);
                            assert(opt_pkg_view(Some(r)) == opt_pkg_view(
                                find_spec(ind, name@),
                            ));
                        }
                        return Some(r);
                    },
                    None => {
                        proof {
                            assert(latest_in(ps) is None);
                            assert(find_spec(ind.skip(a as int), name@) == find_spec(
                                ind.skip(a + 1),
                                name@,
                            )) by {
                                assert(ind.skip(a as int).drop_first() =~= ind.skip(a + 1));
                            }
                        }
                    },
                }
            } else {
                proof {
                    assert(es@.skip(es@.len() as int).len() == 0);
                    assert(first_entry(es@, name@) is None);
                    assert(ind.skip(a as int).drop_first() =~= ind.skip(a + 1));
                }
            }
            a = a + 1;
        }
        proof {
            assert(ind.skip(ind.len() as int).len() == 0);
        }
        None
    }
}

/// One unit of resolution work: a package and how many of its dependencies
/// have been considered.
struct Frame {
    package: Package,
    next_dep: usize,
}

/// Frames never point past their dependency list.
spec fn frame_wf(f: Frame) -> bool {
    f.next_dep <= f.package.dependencies@.len()
}

/// Work remaining on the stack: one step per unconsidered dependency plus
/// one per pending completion.
spec fn stack_weight(s: Seq<Frame>) -> int
    decreases s.len(),
{
    if s.len() == 0 {
        0
    } else {
        stack_weight(s.drop_last()) + s.last().package.dependencies@.len() + 1
            - s.last().next_dep
    }
}

proof fn lemma_stack_weight_nonneg(s: Seq<Frame>)
    requires
        forall|i: int| 0 <= i < s.len() ==> frame_wf(#[trigger] s[i]),
    ensures
        stack_weight(s) >= 0,
    decreases s.len(),
{
    if s.len() > 0 {
        assert(forall|i: int| 0 <= i < s.drop_last().len() ==> s.drop_last()[i] == #[trigger] s[i]);
        lemma_stack_weight_nonneg(s.drop_last());
        assert(frame_wf(s[s.len() - 1]));
    }
}

/// The frames form a demand chain: each frame's package carries an unmet
/// mandatory dependency on the name of the frame above it.
#[verifier::opaque]
spec fn stack_chain(inst: Seq<InstalledPackage>, s: Seq<Frame>) -> bool {
    forall|t: int|
        1 <= t < s.len() ==> pkg_demands(inst, s[t - 1].package, (#[trigger] s[t]).package.name@)
}

/// Every completed package is the target or is demanded by a pending frame
/// or an earlier or later completed package.
#[verifier::opaque]
spec fn out_provenance(
    inst: Seq<InstalledPackage>,
    tgt: PackageView,
    out: Seq<Package>,
    s: Seq<Frame>,
) -> bool {
    forall|j: int|
        0 <= j < out.len() ==> (#[trigger] out[j])@ == tgt || (exists|p: int|
            0 <= p < s.len() && pkg_demands(inst, (#[trigger] s[p]).package, out[j].name@)) || (
        exists|q: int| 0 <= q < out.len() && pkg_demands(inst, #[trigger] out[q], out[j].name@))
}

/// Each unmet mandatory dependency of a completed package either completed
/// earlier, or the package itself is demanded back by a completed package
/// at the same or a later index or by a pending frame (a broken cycle).
#[verifier::opaque]
spec fn out_ordering(inst: Seq<InstalledPackage>, out: Seq<Package>, s: Seq<Frame>) -> bool {
    forall|j: int, k: int|
        0 <= j < out.len() && 0 <= k < out[j].dependencies@.len() && dep_unmet(
            inst,
            #[trigger] crate::types::deps_view(out[j].dependencies@)[k],
        ) ==> (exists|q: int|
            0 <= q < j && (#[trigger] out[q]).name@ == crate::types::deps_view(
                out[j].dependencies@,
            )[k].name) || (exists|m: int|
            j <= m < out.len() && pkg_demands(inst, #[trigger] out[m], out[j].name@)) || (exists|
            p: int,
        |
            0 <= p < s.len() && pkg_demands(inst, (#[trigger] s[p]).package, out[j].name@))
}

/// Advancing a frame (and possibly descending into a fresh one) keeps the
/// demand chain and the completed packages' provenance and ordering.
#[verifier::rlimit(100)]
proof fn lemma_advance_chain(
    inst: Seq<InstalledPackage>,
    st0: Seq<Frame>,
    st2: Seq<Frame>,
)
    requires
        st0.len() >= 1,
        st2.len() == st0.len() || st2.len() == st0.len() + 1,
        forall|i: int| 0 <= i < st0.len() ==> (#[trigger] st2[i]).package == st0[i].package,
        st2.len() == st0.len() + 1 ==> pkg_demands(
            inst,
            st2[st2.len() - 2].package,
            st2[st2.len() - 1].package.name@,
        ),
        stack_chain(inst, st0),
    ensures
        stack_chain(inst, st2),
{
    reveal(stack_chain);
    assert forall|t: int| 1 <= t < st2.len() implies pkg_demands(
        inst,
        st2[t - 1].package,
        (#[trigger] st2[t]).package.name@,
    ) by {
        if t < st0.len() {
            assert(st2[t - 1].package == st0[t - 1].package);
            assert(st2[t].package == st0[t].package);
            assert(pkg_demands(inst, st0[t - 1].package, st0[t].package.name@));
        }
    }
}

#[verifier::rlimit(100)]
proof fn lemma_advance_provenance(
    inst: Seq<InstalledPackage>,
    tgt: PackageView,
    st0: Seq<Frame>,
    st2: Seq<Frame>,
    out: Seq<Package>,
)
    requires
        st2.len() >= st0.len(),
        forall|i: int| 0 <= i < st0.len() ==> (#[trigger] st2[i]).package == st0[i].package,
        out_provenance(inst, tgt, out, st0),
    ensures
        out_provenance(inst, tgt, out, st2),
{
    reveal(out_provenance);
    assert forall|j: int|
        0 <= j < out.len() implies (#[trigger] out[j])@ == tgt || (exists|p: int|
            0 <= p < st2.len() && pkg_demands(inst, (#[trigger] st2[p]).package, out[j].name@))
            || (exists|q: int|
            0 <= q < out.len() && pkg_demands(inst, #[trigger] out[q], out[j].name@)) by {
        if !(out[j]@ == tgt) {
            if exists|p: int|
                0 <= p < st0.len() && pkg_demands(
                    inst,
                    (#[trigger] st0[p]).package,
                    out[j].name@,
                ) {
                let p = choose|p: int|
                    0 <= p < st0.len() && pkg_demands(
                        inst,
                        (#[trigger] st0[p]).package,
                        out[j].name@,
                    );
                assert(st2[p].package == st0[p].package);
                assert(pkg_demands(inst, st2[p].package, out[j].name@));
            }
        }
    }
}

#[verifier::rlimit(100)]
proof fn lemma_advance_ordering(
    inst: Seq<InstalledPackage>,
    st0: Seq<Frame>,
    st2: Seq<Frame>,
    out: Seq<Package>,
)
    requires
        st2.len() >= st0.len(),
        forall|i: int| 0 <= i < st0.len() ==> (#[trigger] st2[i]).package == st0[i].package,
        out_ordering(inst, out, st0),
    ensures
        out_ordering(inst, out, st2),
{
    reveal(out_ordering);
    assert forall|j: int, k: int|
        0 <= j < out.len() && 0 <= k < out[j].dependencies@.len() && dep_unmet(
            inst,
            #[trigger] crate::types::deps_view(out[j].dependencies@)[k],
        ) implies (exists|q: int|
        0 <= q < j && (#[trigger] out[q]).name@ == crate::types::deps_view(
            out[j].dependencies@,
        )[k].name) || (exists|m: int|
        j <= m < out.len() && pkg_demands(inst, #[trigger] out[m], out[j].name@)) || (exists|
        p: int,
    |
        0 <= p < st2.len() && pkg_demands(inst, (#[trigger] st2[p]).package, out[j].name@)) by {
        let d = crate::types::deps_view(out[j].dependencies@)[k];
        if !(exists|q: int| 0 <= q < j && (#[trigger] out[q]).name@ == d.name) && !(exists|
            m: int,
        | j <= m < out.len() && pkg_demands(inst, #[trigger] out[m], out[j].name@)) {
            let p = choose|p: int|
                0 <= p < st0.len() && pkg_demands(
                    inst,
                    (#[trigger] st0[p]).package,
                    out[j].name@,
                );
            assert(st2[p].package == st0[p].package);
            assert(pkg_demands(inst, st2[p].package, out[j].name@));
        }
    }
}

/// Advancing a frame (and possibly descending into a fresh one) keeps the
/// demand chain and the completed packages' provenance and ordering.
proof fn lemma_advance_keeps_demands(
    inst: Seq<InstalledPackage>,
    tgt: PackageView,
    st0: Seq<Frame>,
    st2: Seq<Frame>,
    out: Seq<Package>,
)
    requires
        st0.len() >= 1,
        st2.len() == st0.len() || st2.len() == st0.len() + 1,
        forall|i: int| 0 <= i < st0.len() ==> (#[trigger] st2[i]).package == st0[i].package,
        st2.len() == st0.len() + 1 ==> pkg_demands(
            inst,
            st2[st2.len() - 2].package,
            st2[st2.len() - 1].package.name@,
        ),
        stack_chain(inst, st0),
        out_provenance(inst, tgt, out, st0),
        out_ordering(inst, out, st0),
    ensures
        stack_chain(inst, st2),
        out_provenance(inst, tgt, out, st2),
        out_ordering(inst, out, st2),
{
    lemma_advance_chain(inst, st0, st2);
    lemma_advance_provenance(inst, tgt, st0, st2, out);
    lemma_advance_ordering(inst, st0, st2, out);
}

#[verifier::rlimit(100)]
proof fn lemma_complete_chain(inst: Seq<InstalledPackage>, st0: Seq<Frame>, st1: Seq<Frame>)
    requires
        st0.len() >= 1,
        st1 == st0.drop_last(),
        stack_chain(inst, st0),
    ensures
        stack_chain(inst, st1),
{
    reveal(stack_chain);
    assert forall|t: int| 1 <= t < st1.len() implies pkg_demands(
        inst,
        st1[t - 1].package,
        (#[trigger] st1[t]).package.name@,
    ) by {
        assert(st1[t - 1] == st0[t - 1] && st1[t] == st0[t]);
        assert(pkg_demands(inst, st0[t - 1].package, st0[t].package.name@));
    }
}

#[verifier::rlimit(100)]
proof fn lemma_complete_provenance(
    inst: Seq<InstalledPackage>,
    tgt: PackageView,
    st0: Seq<Frame>,
    st1: Seq<Frame>,
    out0: Seq<Package>,
    out1: Seq<Package>,
)
    requires
        st0.len() >= 1,
        st1 == st0.drop_last(),
        out1 == out0.push(st0.last().package),
        stack_chain(inst, st0),
        out_provenance(inst, tgt, out0, st0),
        st0.len() == 1 ==> st0[0].package@ == tgt,
    ensures
        out_provenance(inst, tgt, out1, st1),
{
    reveal(stack_chain);
    reveal(out_provenance);
    assert forall|j: int|
        0 <= j < out1.len() implies (#[trigger] out1[j])@ == tgt || (exists|p: int|
            0 <= p < st1.len() && pkg_demands(inst, (#[trigger] st1[p]).package, out1[j].name@))
            || (exists|q: int|
            0 <= q < out1.len() && pkg_demands(inst, #[trigger] out1[q], out1[j].name@)) by {
        if j < out1.len() - 1 {
            assert(out1[j] == out0[j]);
            if !(out0[j]@ == tgt) {
                if exists|p: int|
                    0 <= p < st0.len() && pkg_demands(
                        inst,
                        (#[trigger] st0[p]).package,
                        out0[j].name@,
                    ) {
                    let p = choose|p: int|
                        0 <= p < st0.len() && pkg_demands(
                            inst,
                            (#[trigger] st0[p]).package,
                            out0[j].name@,
                        );
                    if p < st0.len() - 1 {
                        assert(st1[p] == st0[p]);
                        assert(pkg_demands(inst, st1[p].package, out1[j].name@));
                    } else {
                        assert(out1[out1.len() - 1] == st0.last().package);
                        assert(pkg_demands(inst, out1[out1.len() - 1], out1[j].name@));
                    }
                } else {
                    let q = choose|q: int|
                        0 <= q < out0.len() && pkg_demands(
                            inst,
                            #[trigger] out0[q],
                            out0[j].name@,
                        );
                    assert(out1[q] == out0[q]);
                    assert(pkg_demands(inst, out1[q], out1[j].name@));
                }
            }
        } else {
            if st0.len() == 1 {
                assert(out1[j]@ == tgt);
            } else {
                assert(st1[st1.len() - 1] == st0[st0.len() - 2]);
                assert(out1[j] == st0.last().package);
                assert(pkg_demands(
                    inst,
                    st0[st0.len() - 2].package,
                    st0[st0.len() - 1].package.name@,
                ));
                assert(pkg_demands(inst, st1[st1.len() - 1].package, out1[j].name@));
            }
        }
    }
}

#[verifier::rlimit(100)]
proof fn lemma_complete_ordering(
    inst: Seq<InstalledPackage>,
    tgt: PackageView,
    st0: Seq<Frame>,
    st1: Seq<Frame>,
    out0: Seq<Package>,
    out1: Seq<Package>,
    vs: Seq<Seq<char>>,
)
    requires
        st0.len() >= 1,
        st1 == st0.drop_last(),
        out1 == out0.push(st0.last().package),
        stack_chain(inst, st0),
        out_ordering(inst, out0, st0),
        forall|k: int|
            0 <= k < st0.last().package.dependencies@.len() ==> dep_settled(
                inst,
                vs,
                #[trigger] crate::types::deps_view(st0.last().package.dependencies@)[k],
            ),
        forall|n: Seq<char>|
            #[trigger] vs.contains(n) ==> (exists|i: int|
                0 <= i < st0.len() && (#[trigger] st0[i]).package.name@ == n) || (exists|i: int|
                0 <= i < out0.len() && (#[trigger] out0[i]).name@ == n),
    ensures
        out_ordering(inst, out1, st1),
{
    reveal(pkg_demands);
    reveal(stack_chain);
    reveal(out_ordering);
    assert forall|j: int, k: int|
        0 <= j < out1.len() && 0 <= k < out1[j].dependencies@.len() && dep_unmet(
            inst,
            #[trigger] crate::types::deps_view(out1[j].dependencies@)[k],
        ) implies (exists|q: int|
        0 <= q < j && (#[trigger] out1[q]).name@ == crate::types::deps_view(
            out1[j].dependencies@,
        )[k].name) || (exists|m: int|
        j <= m < out1.len() && pkg_demands(inst, #[trigger] out1[m], out1[j].name@)) || (exists|
        p: int,
    |
        0 <= p < st1.len() && pkg_demands(inst, (#[trigger] st1[p]).package, out1[j].name@)) by {
        let d = crate::types::deps_view(out1[j].dependencies@)[k];
        if j < out1.len() - 1 {
            assert(out1[j] == out0[j]);
            assert(crate::types::deps_view(out0[j].dependencies@)[k] == d);
            if exists|q: int| 0 <= q < j && (#[trigger] out0[q]).name@ == d.name {
                let q = choose|q: int| 0 <= q < j && (#[trigger] out0[q]).name@ == d.name;
                assert(out1[q].name@ == d.name);
            } else if exists|m: int|
                j <= m < out0.len() && pkg_demands(inst, #[trigger] out0[m], out0[j].name@) {
                let m = choose|m: int|
                    j <= m < out0.len() && pkg_demands(inst, #[trigger] out0[m], out0[j].name@);
                assert(out1[m] == out0[m]);
                assert(pkg_demands(inst, out1[m], out1[j].name@));
            } else {
                let p = choose|p: int|
                    0 <= p < st0.len() && pkg_demands(
                        inst,
                        (#[trigger] st0[p]).package,
                        out0[j].name@,
                    );
                if p < st0.len() - 1 {
                    assert(st1[p] == st0[p]);
                    assert(pkg_demands(inst, st1[p].package, out1[j].name@));
                } else {
                    assert(out1[out1.len() - 1] == st0.last().package);
                    assert(pkg_demands(inst, out1[out1.len() - 1], out1[j].name@));
                }
            }
        } else {
            // the fresh entry: each unmet dependency was settled against the
            // visited names, which all sit in the prior output or on a frame
            assert(out1[j] == st0.last().package);
            assert(dep_settled(inst, vs, d));
            assert(vs.contains(d.name));
            if exists|q: int| 0 <= q < out0.len() && (#[trigger] out0[q]).name@ == d.name {
                let q = choose|q: int|
                    0 <= q < out0.len() && (#[trigger] out0[q]).name@ == d.name;
                assert(out1[q].name@ == d.name);
                assert(q < j);
            } else {
                let p = choose|p: int|
                    0 <= p < st0.len() && (#[trigger] st0[p]).package.name@ == d.name;
                if st0.len() == 1 {
                    // the dependency names the target itself
                    assert(d.name == out1[j].name@);
                    assert(pkg_demands(inst, out1[j], out1[j].name@)) by {
                        assert(crate::types::deps_view(out1[j].dependencies@)[k] == d);
                    }
                } else {
                    assert(st1[st1.len() - 1] == st0[st0.len() - 2]);
                    assert(pkg_demands(
                        inst,
                        st0[st0.len() - 2].package,
                        st0[st0.len() - 1].package.name@,
                    ));
                    assert(pkg_demands(inst, st1[st1.len() - 1].package, out1[j].name@));
                }
            }
        }
    }
}

/// Completing the top frame keeps the demand chain and the provenance and
/// ordering of the grown output: witnesses on the completed frame convert
/// to witnesses on its new output position, and the fresh entry's own
/// witness is its parent frame, or the entry is the target.
proof fn lemma_complete_keeps_demands(
    inst: Seq<InstalledPackage>,
    tgt: PackageView,
    st0: Seq<Frame>,
    st1: Seq<Frame>,
    out0: Seq<Package>,
    out1: Seq<Package>,
    vs: Seq<Seq<char>>,
)
    requires
        st0.len() >= 1,
        st1 == st0.drop_last(),
        out1 == out0.push(st0.last().package),
        stack_chain(inst, st0),
        out_provenance(inst, tgt, out0, st0),
        out_ordering(inst, out0, st0),
        st0.len() == 1 ==> st0[0].package@ == tgt,
        forall|k: int|
            0 <= k < st0.last().package.dependencies@.len() ==> dep_settled(
                inst,
                vs,
                #[trigger] crate::types::deps_view(st0.last().package.dependencies@)[k],
            ),
        forall|n: Seq<char>|
            #[trigger] vs.contains(n) ==> (exists|i: int|
                0 <= i < st0.len() && (#[trigger] st0[i]).package.name@ == n) || (exists|i: int|
                0 <= i < out0.len() && (#[trigger] out0[i]).name@ == n),
    ensures
        stack_chain(inst, st1),
        out_provenance(inst, tgt, out1, st1),
        out_ordering(inst, out1, st1),
{
    lemma_complete_chain(inst, st0, st1);
    lemma_complete_provenance(inst, tgt, st0, st1, out0, out1);
    lemma_complete_ordering(inst, tgt, st0, st1, out0, out1, vs);
}

/// With no frames pending, the collected output satisfies the plan's
/// public clauses: membership, distinct names, the target last, closure,
/// minimality, and dependency-first order up to broken cycles.
#[verifier::rlimit(100)]
proof fn lemma_finish_plan(
    inst: Seq<InstalledPackage>,
    ind: Seq<RepositoryIndex>,
    tgt: PackageView,
    out: Seq<Package>,
    vs: Seq<Seq<char>>,
)
    requires
        out.len() >= 1,
        out.last()@ == tgt,
        forall|i: int| 0 <= i < out.len() ==> (#[trigger] out[i])@ == tgt || in_catalog(ind, out[i]@),
        forall|i: int, j: int|
            0 <= i < j < out.len() ==> (#[trigger] out[i]).name@ != (#[trigger] out[j]).name@,
        forall|i: int, k: int|
            0 <= i < out.len() && 0 <= k < out[i].dependencies@.len() ==> dep_settled(
                inst,
                vs,
                #[trigger] crate::types::deps_view(out[i].dependencies@)[k],
            ),
        forall|n: Seq<char>|
            #[trigger] vs.contains(n) ==> exists|i: int|
                0 <= i < out.len() && (#[trigger] out[i]).name@ == n,
        out_provenance(inst, tgt, out, Seq::<Frame>::empty()),
        out_ordering(inst, out, Seq::<Frame>::empty()),
    ensures
        ({
            let pv = crate::types::packages_view(out);
            &&& pv.len() >= 1
            &&& pv.last() == tgt
            &&& forall|i: int|
                0 <= i < pv.len() ==> (#[trigger] pv[i]) == tgt || in_catalog(ind, pv[i])
            &&& forall|i: int, j: int|
                0 <= i < j < pv.len() ==> (#[trigger] pv[i]).name != (#[trigger] pv[j]).name
            &&& forall|i: int, k: int|
                0 <= i < pv.len() && 0 <= k < pv[i].dependencies.len() ==> dep_settled_in_plan(
                    inst,
                    pv,
                    #[trigger] pv[i].dependencies[k],
                )
            &&& forall|i: int|
                0 <= i < pv.len() - 1 ==> exists|m: int|
                    0 <= m < pv.len() && plan_demands(inst, pv, m, (#[trigger] pv[i]).name)
            &&& forall|i: int, k: int|
                0 <= i < pv.len() && 0 <= k < pv[i].dependencies.len() && dep_unmet(
                    inst,
                    #[trigger] pv[i].dependencies[k],
                ) ==> exists|q: int|
                    0 <= q < pv.len() && pv[q].name == pv[i].dependencies[k].name && (q < i
                        || exists|m: int|
                        i <= m < pv.len() && plan_demands(inst, pv, m, pv[i].name))
        }),
{
    reveal(pkg_demands);
    reveal(out_provenance);
    reveal(out_ordering);
            let pv = crate::types::packages_view(out);
            let vs = vs;
            assert(pv.len() == out.len());
            assert(pv.last() == out.last()@);
            assert forall|i: int, k: int|
                0 <= i < pv.len() && 0 <= k < pv[i].dependencies.len()
                    implies dep_settled_in_plan(inst, pv, #[trigger] pv[i].dependencies[k]) by {
                assert(pv[i] == out[i]@);
                let d = crate::types::deps_view(out[i].dependencies@)[k];
                assert(pv[i].dependencies[k] == d);
                assert(dep_settled(inst, vs, d));
                if !(d.optional || d.build_only || dep_satisfied(inst, d)) {
                    assert(vs.contains(d.name));
                    let q = choose|q: int|
                        0 <= q < out.len() && (#[trigger] out[q]).name@ == d.name;
                    assert(pv[q].name == d.name);
                }
            }
            assert forall|i: int, j: int|
                0 <= i < j < pv.len() implies (#[trigger] pv[i]).name != (
            #[trigger] pv[j]).name by {
                assert(pv[i] == out[i]@ && pv[j] == out[j]@);
                assert(out[i].name@ != out[j].name@);
            }
            assert forall|i: int|
                0 <= i < pv.len() implies (#[trigger] pv[i]) == tgt || in_catalog(
                    ind,
                    pv[i],
                ) by {
                assert(pv[i] == out[i]@);
            }
            // minimality: every plan member but the target answers a demand
            assert forall|i: int|
                0 <= i < pv.len() - 1 implies exists|m: int|
                    0 <= m < pv.len() && plan_demands(inst, pv, m, (#[trigger] pv[i]).name) by {
                assert(pv[i] == out[i]@);
                assert(!(out[i]@ == tgt)) by {
                    if out[i]@ == tgt {
                        assert(out.last()@ == tgt);
                        assert(out[i].name@ == out[out.len() - 1].name@);
                    }
                }
                let q = choose|q: int|
                    0 <= q < out.len() && pkg_demands(
                        inst,
                        #[trigger] out[q],
                        out[i].name@,
                    );
                assert(plan_demands(inst, pv, q, pv[i].name)) by {
                    let k2 = choose|k2: int|
                        0 <= k2 < out[q].dependencies@.len() && dep_unmet(
                            inst,
                            #[trigger] crate::types::deps_view(out[q].dependencies@)[k2],
                        ) && crate::types::deps_view(out[q].dependencies@)[k2].name
                            == out[i].name@;
                    assert(pv[q] == out[q]@);
                    assert(pv[q].dependencies[k2] == crate::types::deps_view(
                        out[q].dependencies@,
                    )[k2]);
                }
            }
            // order: dependencies precede dependents, except for a package
            // that a member at the same or a later index demands back - a
            // silently broken cycle
            assert forall|i: int, k: int|
                0 <= i < pv.len() && 0 <= k < pv[i].dependencies.len() && dep_unmet(
                    inst,
                    #[trigger] pv[i].dependencies[k],
                ) implies exists|q: int|
                0 <= q < pv.len() && pv[q].name == pv[i].dependencies[k].name && (q < i || exists|
                    m: int,
                |
                    i <= m < pv.len() && plan_demands(inst, pv, m, pv[i].name)) by {
                assert(pv[i] == out[i]@);
                let d = crate::types::deps_view(out[i].dependencies@)[k];
                assert(pv[i].dependencies[k] == d);
                assert(dep_unmet(inst, d));
                if exists|q: int| 0 <= q < i && (#[trigger] out[q]).name@ == d.name {
                    let q = choose|q: int|
                        0 <= q < i && (#[trigger] out[q]).name@ == d.name;
                    assert(pv[q].name == d.name);
                    assert(0 <= q < pv.len() && pv[q].name == pv[i].dependencies[k].name && q
                        < i);
                } else {
                    let m = choose|m: int|
                        i <= m < out.len() && pkg_demands(
                            inst,
                            #[trigger] out[m],
                            out[i].name@,
                        );
                    assert(dep_settled(inst, vs, d));
                    assert(vs.contains(d.name));
                    let q = choose|q: int|
                        0 <= q < out.len() && (#[trigger] out[q]).name@ == d.name;
                    assert(pv[q].name == d.name);
                    assert(plan_demands(inst, pv, m, pv[i].name)) by {
                        let k2 = choose|k2: int|
                            0 <= k2 < out[m].dependencies@.len() && dep_unmet(
                                inst,
                                #[trigger] crate::types::deps_view(out[m].dependencies@)[k2],
                            ) && crate::types::deps_view(out[m].dependencies@)[k2].name
                                == out[i].name@;
                        assert(pv[m] == out[m]@);
                        assert(pv[m].dependencies[k2] == crate::types::deps_view(
                            out[m].dependencies@,
                        )[k2]);
                        assert(pv[i].name == out[i].name@);
                    }
                }
            }
}

/// A dependency needs no further work: it is optional or build-only, it is
/// met by what is installed, or its name has already been taken up.
pub open spec fn dep_settled(
    inst: Seq<InstalledPackage>,
    vs: Seq<Seq<char>>,
    d: crate::types::DependencyView,
) -> bool {
    d.optional || d.build_only || dep_satisfied(inst, d) || vs.contains(d.name)
}

impl PackageManager {
    /// Is a string with that view among `v`?
    fn vec_has_name(v: &Vec<String>, name: &str) -> (r: bool)
        ensures
            r == crate::types::strings_view(v@).contains(name@),
    {
        let mut j: usize = 0;
        while j < v.len()
            invariant
                j <= v@.len(),
                forall|k: int| 0 <= k < j ==> (#[trigger] v@[k])@ != name@,
            decreases v@.len() - j,
        {
            if str_eq(v[j].as_str(), name) {
                assert(crate::types::strings_view(v@)[j as int] == name@);
                return true;
            }
            j = j + 1;
        }
        assert(!crate::types::strings_view(v@).contains(name@)) by {
            if crate::types::strings_view(v@).contains(name@) {
                let k = choose|k: int|
                    0 <= k < v@.len() && crate::types::strings_view(v@)[k] == name@;
                assert(v@[k]@ == name@);
            }
        }
        false
    }

    /// Resolves the dependency closure of `package` into a valid install
    /// order: a finite worklist over a visited-name set, which terminates on
    /// any finite, possibly cyclic dependency graph. Cycles are broken at a
    /// name already taken up rather than reported.
    ///
    /// On success the plan lists distinct names drawn from the target and
    /// the catalogs, ends with the target itself, and is closed: every
    /// mandatory dependency of a planned package is either met by an
    /// installed package or planned under its own name. The plan is also
    /// minimal - every member but the target answers some member's unmet
    /// mandatory dependency - and ordered: a planned dependency precedes
    /// the package that demands it, except for a package that a member at
    /// the same or a later index demands back, a silently broken cycle.
    #[verifier::rlimit(100)]
    pub fn resolve_dependencies(&self, package: &Package) -> (r: Result<Vec<Package>, PkgError>)
        requires
            self.database.wf(),
        ensures
            match r {
                Ok(list) => {
                    let pv = crate::types::packages_view(list@);
                    &&& pv.len() >= 1
                    &&& pv.last() == package@
                    &&& forall|i: int|
                        0 <= i < pv.len() ==> (#[trigger] pv[i]) == package@ || in_catalog(
                            self.database.indices_seq(),
                            pv[i],
                        )
                    &&& forall|i: int, j: int|
                        0 <= i < j < pv.len() ==> (#[trigger] pv[i]).name != (
                        #[trigger] pv[j]).name
                    &&& forall|i: int, k: int|
                        0 <= i < pv.len() && 0 <= k < pv[i].dependencies.len()
                            ==> dep_settled_in_plan(
                            self.database.installed_seq(),
                            pv,
                            #[trigger] pv[i].dependencies[k],
                        )
                    &&& forall|i: int|
                        0 <= i < pv.len() - 1 ==> exists|m: int|
                            0 <= m < pv.len() && plan_demands(
                                self.database.installed_seq(),
                                pv,
                                m,
                                (#[trigger] pv[i]).name,
                            )
                    &&& forall|i: int, k: int|
                        0 <= i < pv.len() && 0 <= k < pv[i].dependencies.len() && dep_unmet(
                            self.database.installed_seq(),
                            #[trigger] pv[i].dependencies[k],
                        ) ==> exists|q: int|
                            0 <= q < pv.len() && pv[q].name == pv[i].dependencies[k].name && (q
                                < i || exists|m: int|
                                i <= m < pv.len() && plan_demands(
                                    self.database.installed_seq(),
                                    pv,
                                    m,
                                    pv[i].name,
                                ))
                },
                Err(e) => {
                    &&& e matches PkgError::DependencyNotFound(n) ==> find_spec(
                        self.database.indices_seq(),
                        n@,
                    ) is None && unmet_demand(
                        package@,
                        self.database.indices_seq(),
                        self.database.installed_seq(),
                        n@,
                    )
                    &&& e matches PkgError::InvalidRequirement(rq) ==> !req_well_formed(rq@)
                        && unparsed_demand(
                        package@,
                        self.database.indices_seq(),
                        self.database.installed_seq(),
                        rq@,
                    )
                    &&& (e is DependencyNotFound || e is InvalidRequirement)
                },
            },
    {
        let ghost ind = self.database.indices_seq();
        let ghost inst = self.database.installed_seq();
        let ghost tgt = package@;
        let ghost full = catalog_names(ind).to_set().insert(tgt.name);
        let mut stack: Vec<Frame> = Vec::new();
        let mut visited: Vec<String> = Vec::new();
        let mut output: Vec<Package> = Vec::new();
        visited.push(package.name.clone());
        stack.push(Frame { package: package.clone(), next_dep: 0 });
        proof {
            vstd::seq_lib::seq_to_set_is_finite(catalog_names(ind));
            assert(crate::types::strings_view(visited@) =~~= seq![tgt.name]);
            assert(stack@[0].package@ == tgt);
            assert(stack@[0].package.name@ == tgt.name);
            assert(crate::types::strings_view(visited@).contains(tgt.name)) by {
                assert(crate::types::strings_view(visited@)[0] == tgt.name);
            }
            assert forall|n: Seq<char>|
                #[trigger] crate::types::strings_view(visited@).contains(n) implies n
                == tgt.name by {
                let k = choose|k: int|
                    0 <= k < crate::types::strings_view(visited@).len()
                        && crate::types::strings_view(visited@)[k] == n;
            }
            assert(stack_chain(inst, stack@)) by {
                reveal(stack_chain);
            }
            assert(out_provenance(inst, tgt, output@, stack@)) by {
                reveal(out_provenance);
            }
            assert(out_ordering(inst, output@, stack@)) by {
                reveal(out_ordering);
            }
        }
        while stack.len() > 0
            invariant
                self.database.wf(),
                ind == self.database.indices_seq(),
                inst == self.database.installed_seq(),
                tgt == package@,
                full == catalog_names(ind).to_set().insert(tgt.name),
                full.finite(),
                forall|i: int| 0 <= i < stack@.len() ==> frame_wf(#[trigger] stack@[i]),
                forall|i: int|
                    0 <= i < stack@.len() ==> (#[trigger] stack@[i]).package@ == tgt || in_catalog(
                        ind,
                        stack@[i].package@,
                    ),
                forall|i: int, k: int|
                    0 <= i < stack@.len() && 0 <= k < stack@[i].next_dep ==> dep_settled(
                        inst,
                        crate::types::strings_view(visited@),
                        #[trigger] crate::types::deps_view(stack@[i].package.dependencies@)[k],
                    ),
                forall|i: int|
                    0 <= i < output@.len() ==> (#[trigger] output@[i])@ == tgt || in_catalog(
                        ind,
                        output@[i]@,
                    ),
                forall|i: int, k: int|
                    0 <= i < output@.len() && 0 <= k < output@[i].dependencies@.len()
                        ==> dep_settled(
                        inst,
                        crate::types::strings_view(visited@),
                        #[trigger] crate::types::deps_view(output@[i].dependencies@)[k],
                    ),
                forall|i: int|
                    0 <= i < stack@.len() ==> crate::types::strings_view(visited@).contains(
                        (#[trigger] stack@[i]).package.name@,
                    ),
                forall|i: int|
                    0 <= i < output@.len() ==> crate::types::strings_view(visited@).contains(
                        (#[trigger] output@[i]).name@,
                    ),
                forall|n: Seq<char>|
                    #[trigger] crate::types::strings_view(visited@).contains(n) ==> (exists|i: int|
                        0 <= i < stack@.len() && (#[trigger] stack@[i]).package.name@ == n) || (
                    exists|i: int| 0 <= i < output@.len() && (#[trigger] output@[i]).name@ == n),
                forall|i: int, j: int|
                    0 <= i < j < stack@.len() ==> (#[trigger] stack@[i]).package.name@ != (
                    #[trigger] stack@[j]).package.name@,
                forall|i: int, j: int|
                    0 <= i < j < output@.len() ==> (#[trigger] output@[i]).name@ != (
                    #[trigger] output@[j]).name@,
                forall|i: int, j: int|
                    0 <= i < stack@.len() && 0 <= j < output@.len() ==> (
                    #[trigger] stack@[i]).package.name@ != (#[trigger] output@[j]).name@,
                forall|n: Seq<char>|
                    #[trigger] crate::types::strings_view(visited@).contains(n) ==> n == tgt.name
                        || catalog_names(ind).contains(n),
                stack_chain(inst, stack@),
                out_provenance(inst, tgt, output@, stack@),
                out_ordering(inst, output@, stack@),
                stack@.len() > 0 ==> stack@[0].package@ == tgt,
                stack@.len() == 0 ==> output@.len() >= 1 && output@.last()@ == tgt,
            decreases
                    full.difference(crate::types::strings_view(visited@).to_set()).len(),
                    stack_weight(stack@),
        {
            proof {
                lemma_stack_weight_nonneg(stack@);
            }
            let ghost st0 = stack@;
            let ghost vs0 = crate::types::strings_view(visited@);
            let f = match stack.pop() {
                Some(f) => f,
                None => {
                    proof {
                        assert(false);
                    }
                    return Err(PkgError::DatabaseError("unreachable".to_owned()));
                },
            };
            proof {
                assert(stack@ =~= st0.drop_last());
                assert(f == st0.last());
                lemma_stack_weight_nonneg(stack@);
            }
            let nd = f.next_dep;
            if nd < f.package.dependencies.len() {
                let dep = f.package.dependencies[nd].clone();
                let ghost dv = crate::types::deps_view(f.package.dependencies@)[nd as int];
                assert(dep@ == dv);
                stack.push(Frame { package: f.package, next_dep: nd + 1 });
                proof {
                    let st1 = stack@;
                    assert(st1 =~= st0.drop_last().push(
                        Frame { package: st0.last().package, next_dep: (nd + 1) as usize },
                    ));
                    assert(st1.last().package == st0.last().package);
                    assert(stack_weight(st1) == stack_weight(st0) - 1) by {
                        assert(st1.drop_last() =~= st0.drop_last());
                    }
                    assert forall|i: int|
                        0 <= i < st1.len() implies frame_wf(#[trigger] st1[i]) by {
                        if i < st1.len() - 1 {
                            assert(st1[i] == st0[i]);
                        }
                    }
                    assert forall|i: int|
                        0 <= i < st1.len() implies (#[trigger] st1[i]).package == st0[
                        i].package by {
                        if i < st1.len() - 1 {
                            assert(st1[i] == st0[i]);
                        }
                    }
                }
                let mut settle = dep.optional || dep.build_only;
                let mut descend = false;
                if !settle {
                    if self.database.is_installed(dep.name.as_str()) {
                        let inst_pkg = match self.database.get_installed_package(
                            dep.name.as_str(),
                        ) {
                            Ok(p) => p,
                            Err(_) => {
                                proof {
                                    assert(false);
                                }
                                return Err(PkgError::DatabaseError("unreachable".to_owned()));
                            },
                        };
                        match crate::version::version_req_matches(
                            dep.version_req.as_str(),
                            &inst_pkg.package.version,
                        ) {
                            None => {
                                proof {
                                    let pv = st0.last().package@;
                                    assert(pv == tgt || in_catalog(ind, pv));
                                    assert(pv.dependencies[nd as int] == dv);
                                    assert(has_installed(inst, dv.name));
                                    assert(unparsed_demand(tgt, ind, inst, dv.version_req));
                                }
                                return Err(PkgError::InvalidRequirement(dep.version_req));
                            },
                            Some(true) => {
                                proof {
                                    assert(dep_satisfied(inst, dv));
                                }
                                settle = true;
                            },
                            Some(false) => {
                                proof {
                                    if dep_satisfied(inst, dv) {
                                        let i = choose|i: int|
                                            {
                                                &&& 0 <= i < inst.len()
                                                &&& (#[trigger] inst[i]).package.name@ == dv.name
                                                &&& req_well_formed(dv.version_req)
                                                &&& req_matches(
                                                    dv.version_req,
                                                    inst[i].package.version.major,
                                                    inst[i].package.version.minor,
                                                    inst[i].package.version.patch,
                                                )
                                            };
                                        let i0 = choose|i0: int|
                                            0 <= i0 < inst.len() && inst[i0] == *inst_pkg;
                                        assert(i == i0);
                                        assert(false);
                                    }
                                }
                                descend = true;
                            },
                        }
                    } else {
                        proof {
                            if dep_satisfied(inst, dv) {
                                let i = choose|i: int|
                                    {
                                        &&& 0 <= i < inst.len()
                                        &&& (#[trigger] inst[i]).package.name@ == dv.name
                                        &&& req_well_formed(dv.version_req)
                                        &&& req_matches(
                                            dv.version_req,
                                            inst[i].package.version.major,
                                            inst[i].package.version.minor,
                                            inst[i].package.version.patch,
                                        )
                                    };
                                assert(has_installed(inst, dv.name));
                                assert(false);
                            }
                        }
                        descend = true;
                    }
                }
                if descend {
                    if Self::vec_has_name(&visited, dep.name.as_str()) {
                        proof {
                            assert(crate::types::strings_view(visited@).contains(dv.name));
                        }
                    } else {
                        match self.find_package(dep.name.as_str()) {
                            None => {
                                proof {
                                    let pv = st0.last().package@;
                                    assert(pv == tgt || in_catalog(ind, pv));
                                    assert(pv.dependencies[nd as int] == dv);
                                    assert(!dep_satisfied(inst, dv));
                                    assert(unmet_demand(tgt, ind, inst, dv.name));
                                }
                                return Err(PkgError::DependencyNotFound(dep.name));
                            },
                            Some(p) => {
                                let ghost st1 = stack@;
                                let ghost out0 = output@;
                                visited.push(dep.name.clone());
                                stack.push(Frame { package: p, next_dep: 0 });
                                proof {
                                    let vs1 = crate::types::strings_view(visited@);
                                    let st2 = stack@;
                                    assert(vs1 =~~= vs0.push(dv.name));
                                    assert(st2 =~= st1.push(st2.last()));
                                    assert(st2.last().package@.name == dv.name);
                                    // the measure's first component shrinks
                                    assert(full.contains(dv.name));
                                    assert(!vs0.to_set().contains(dv.name)) by {
                                        if vs0.to_set().contains(dv.name) {
                                            assert(vs0.contains(dv.name));
                                        }
                                    }
                                    vs0.lemma_push_to_set_commute(dv.name);
                                    assert(vs1.to_set() == vs0.to_set().insert(dv.name));
                                    full.lemma_set_insert_diff_decreases(
                                        vs0.to_set(),
                                        dv.name,
                                    );
                                    // pushed facts
                                    assert(forall|n: Seq<char>|
                                        vs0.contains(n) ==> #[trigger] vs1.contains(n)) by {
                                        assert forall|n: Seq<char>|
                                            vs0.contains(n) implies #[trigger] vs1.contains(
                                            n,
                                        ) by {
                                            let k = choose|k: int|
                                                0 <= k < vs0.len() && vs0[k] == n;
                                            assert(vs1[k] == n);
                                        }
                                    }
                                    assert(vs1.contains(dv.name)) by {
                                        assert(vs1.last() == dv.name);
                                    }
                                    assert forall|i: int|
                                        0 <= i < st2.len() implies frame_wf(
                                        #[trigger] st2[i],
                                    ) by {
                                        if i < st2.len() - 1 {
                                            assert(st2[i] == st1[i]);
                                        }
                                    }
                                    assert forall|n: Seq<char>|
                                        #[trigger] vs1.contains(n) implies n == tgt.name
                                        || catalog_names(ind).contains(n) by {
                                        let k = choose|k: int|
                                            0 <= k < vs1.len() && vs1[k] == n;
                                        if k < vs0.len() {
                                            assert(vs0[k] == n);
                                            assert(vs0.contains(n));
                                        } else {
                                            assert(n == dv.name);
                                        }
                                    }
                                }
                            },
                        }
                    }
                } else {
                    proof {
                        assert(dep_settled(inst, crate::types::strings_view(visited@), dv));
                    }
                }
                proof {
                    let st2 = stack@;
                    let vs1 = crate::types::strings_view(visited@);
                    assert(forall|n: Seq<char>|
                        vs0.contains(n) ==> #[trigger] vs1.contains(n)) by {
                        assert forall|n: Seq<char>|
                            vs0.contains(n) implies #[trigger] vs1.contains(n) by {
                            let k = choose|k: int| 0 <= k < vs0.len() && vs0[k] == n;
                            assert(vs1[k] == n);
                        }
                    }
                    assert forall|i: int|
                        0 <= i < st0.len() implies (#[trigger] st2[i]).package == st0[
                    i].package by {
                        if i < st0.len() - 1 {
                            assert(st2[i] == st0[i]);
                        }
                    }
                    assert forall|n: Seq<char>|
                        #[trigger] vs1.contains(n) implies (exists|i: int|
                            0 <= i < st2.len() && (#[trigger] st2[i]).package.name@ == n) || (
                        exists|i: int|
                            0 <= i < output@.len() && (#[trigger] output@[i]).name@ == n) by {
                        let k = choose|k: int| 0 <= k < vs1.len() && vs1[k] == n;
                        if k < vs0.len() {
                            assert(vs0[k] == n);
                            assert(vs0.contains(n));
                            if exists|i: int|
                                0 <= i < st0.len() && (#[trigger] st0[i]).package.name@ == n {
                                let i = choose|i: int|
                                    0 <= i < st0.len() && (#[trigger] st0[i]).package.name@
                                        == n;
                                assert(st2[i].package.name@ == n);
                            }
                        } else {
                            assert(n == vs1.last());
                            assert(st2[st2.len() - 1].package.name@ == n);
                        }
                    }
                    assert(dep_settled(inst, vs1, dv));
                    // re-establish the per-frame progress facts
                    assert forall|i: int, k: int|
                        0 <= i < st2.len() && 0 <= k < st2[i].next_dep implies dep_settled(
                            inst,
                            vs1,
                            #[trigger] crate::types::deps_view(st2[i].package.dependencies@)[k],
                        ) by {
                        if i < st0.len() - 1 {
                            assert(st2[i] == st0[i]);
                            assert(dep_settled(
                                inst,
                                vs0,
                                crate::types::deps_view(st0[i].package.dependencies@)[k],
                            ));
                        } else if i == st0.len() - 1 {
                            assert(st2[i].package == st0.last().package);
                            if k < nd {
                                assert(dep_settled(
                                    inst,
                                    vs0,
                                    crate::types::deps_view(st0.last().package.dependencies@)[k],
                                ));
                            } else {
                                assert(k == nd);
                            }
                        } else {
                            // the freshly descended frame has no progress yet
                            assert(st2[i].next_dep == 0);
                        }
                    }
                    // the demand facts survive the step: a fresh frame's
                    // parent demanded it through the dependency considered
                    if st2.len() == st0.len() + 1 {
                        reveal(pkg_demands);
                        assert(st2[st2.len() - 2].package == st0.last().package);
                        assert(crate::types::deps_view(
                            st0.last().package.dependencies@,
                        )[nd as int] == dv);
                        assert(dep_unmet(inst, dv));
                        assert(st2[st2.len() - 1].package.name@ == dv.name);
                        assert(pkg_demands(
                            inst,
                            st2[st2.len() - 2].package,
                            st2[st2.len() - 1].package.name@,
                        ));
                    }
                    lemma_advance_keeps_demands(inst, tgt, st0, st2, output@);
                }
            } else {
                let ghost out0 = output@;
                output.push(f.package);
                proof {
                    let st1 = stack@;
                    let out1 = output@;
                    let vs1 = crate::types::strings_view(visited@);
                    assert(out1 =~= out0.push(st0.last().package));
                    assert(stack_weight(st1) == stack_weight(st0) - 1) by {
                        assert(frame_wf(st0.last()));
                    }
                    if st1.len() == 0 {
                        assert(st0.len() == 1);
                        assert(st0[0].package@ == tgt);
                        assert(out1.last()@ == tgt);
                    }
                    assert forall|n: Seq<char>|
                        #[trigger] vs1.contains(n) implies (exists|i: int|
                            0 <= i < st1.len() && (#[trigger] st1[i]).package.name@ == n) || (
                        exists|i: int| 0 <= i < out1.len() && (#[trigger] out1[i]).name@
                            == n) by {
                        if exists|i: int|
                            0 <= i < st0.len() && (#[trigger] st0[i]).package.name@ == n {
                            let i = choose|i: int|
                                0 <= i < st0.len() && (#[trigger] st0[i]).package.name@ == n;
                            if i < st0.len() - 1 {
                                assert(st1[i].package.name@ == n);
                            } else {
                                assert(out1[out1.len() - 1].name@ == n);
                            }
                        } else {
                            let i = choose|i: int|
                                0 <= i < out0.len() && (#[trigger] out0[i]).name@ == n;
                            assert(out1[i].name@ == n);
                        }
                    }
                    assert forall|i: int, j: int|
                        0 <= i < j < out1.len() implies (#[trigger] out1[i]).name@ != (
                    #[trigger] out1[j]).name@ by {
                        if j < out1.len() - 1 {
                            assert(out1[i] == out0[i] && out1[j] == out0[j]);
                        } else {
                            assert(out1[i] == out0[i]);
                            assert(out1[j] == st0.last().package);
                            assert(st0[st0.len() - 1].package.name@ != out0[i].name@);
                        }
                    }
                    assert forall|i: int, j: int|
                        0 <= i < st1.len() && 0 <= j < out1.len() implies (
                    #[trigger] st1[i]).package.name@ != (#[trigger] out1[j]).name@ by {
                        assert(st1[i] == st0[i]);
                        if j < out1.len() - 1 {
                            assert(out1[j] == out0[j]);
                        } else {
                            assert(out1[j] == st0.last().package);
                            assert(st0[i].package.name@ != st0[st0.len() - 1].package.name@);
                        }
                    }
                    // the completed frame's dependencies are all settled
                    assert forall|k: int|
                        0 <= k < st0.last().package.dependencies@.len() implies dep_settled(
                        inst,
                        vs1,
                        #[trigger] crate::types::deps_view(st0.last().package.dependencies@)[k],
                    ) by {
                        assert(k < st0.last().next_dep);
                    }
                    lemma_complete_keeps_demands(inst, tgt, st0, st1, out0, out1, vs1);
                }
            }
        }
        proof {
            let vs = crate::types::strings_view(visited@);
            assert(stack@ =~= Seq::<Frame>::empty());
            assert forall|n: Seq<char>| #[trigger] vs.contains(n) implies exists|i: int|
                0 <= i < output@.len() && (#[trigger] output@[i]).name@ == n by {
                if exists|i: int|
                    0 <= i < stack@.len() && (#[trigger] stack@[i]).package.name@ == n {
                    let i = choose|i: int|
                        0 <= i < stack@.len() && (#[trigger] stack@[i]).package.name@ == n;
                }
            }
            lemma_finish_plan(inst, ind, tgt, output@, vs);
        }
        Ok(output)
    }
    /// Checks and plans an install: fails `AlreadyInstalled` for a present
    /// package and `NotFound` for an unknown one; otherwise resolves the
    /// full dependency set into install order, the requested package last.
    pub fn plan_install(&self, package_name: &str) -> (r: Result<Vec<Package>, PkgError>)
        requires
            self.database.wf(),
        ensures
            has_installed(self.database.installed_seq(), package_name@) ==> (r matches Err(e)
                && (e matches PkgError::AlreadyInstalled(n) && n@ == package_name@)),
            match r {
                Ok(list) => {
                    let pv = crate::types::packages_view(list@);
                    &&& !has_installed(self.database.installed_seq(), package_name@)
                    &&& find_spec(self.database.indices_seq(), package_name@) is Some
                    &&& pv.len() >= 1
                    &&& pv.last().name == package_name@
                    &&& forall|i: int|
                        0 <= i < pv.len() ==> in_catalog(
                            self.database.indices_seq(),
                            #[trigger] pv[i],
                        )
                    &&& forall|i: int, j: int|
                        0 <= i < j < pv.len() ==> (#[trigger] pv[i]).name != (
                        #[trigger] pv[j]).name
                    &&& forall|i: int, k: int|
                        0 <= i < pv.len() && 0 <= k < pv[i].dependencies.len()
                            ==> dep_settled_in_plan(
                            self.database.installed_seq(),
                            pv,
                            #[trigger] pv[i].dependencies[k],
                        )
                    &&& forall|i: int|
                        0 <= i < pv.len() - 1 ==> exists|m: int|
                            0 <= m < pv.len() && plan_demands(
                                self.database.installed_seq(),
                                pv,
                                m,
                                (#[trigger] pv[i]).name,
                            )
                    &&& forall|i: int, k: int|
                        0 <= i < pv.len() && 0 <= k < pv[i].dependencies.len() && dep_unmet(
                            self.database.installed_seq(),
                            #[trigger] pv[i].dependencies[k],
                        ) ==> exists|q: int|
                            0 <= q < pv.len() && pv[q].name == pv[i].dependencies[k].name && (q
                                < i || exists|m: int|
                                i <= m < pv.len() && plan_demands(
                                    self.database.installed_seq(),
                                    pv,
                                    m,
                                    pv[i].name,
                                ))
                },
                Err(e) => {
                    &&& e matches PkgError::AlreadyInstalled(n) ==> has_installed(
                        self.database.installed_seq(),
                        package_name@,
                    ) && n@ == package_name@
                    &&& e matches PkgError::NotFound(n) ==> !has_installed(
                        self.database.installed_seq(),
                        package_name@,
                    ) && find_spec(self.database.indices_seq(), n@) is None && n@ == package_name@
                    &&& e matches PkgError::DependencyNotFound(n) ==> find_spec(
                        self.database.indices_seq(),
                        n@,
                    ) is None && exists|pv: PackageView, k: int|
                        {
                            &&& in_catalog(self.database.indices_seq(), pv)
                            &&& 0 <= k < pv.dependencies.len()
                            &&& (#[trigger] pv.dependencies[k]).name == n@
                            &&& !pv.dependencies[k].optional
                            &&& !pv.dependencies[k].build_only
                            &&& !dep_satisfied(self.database.installed_seq(), pv.dependencies[k])
                        }
                    &&& e matches PkgError::InvalidRequirement(rq) ==> !req_well_formed(rq@)
                        && exists|pv: PackageView, k: int|
                        {
                            &&& in_catalog(self.database.indices_seq(), pv)
                            &&& 0 <= k < pv.dependencies.len()
                            &&& (#[trigger] pv.dependencies[k]).version_req == rq@
                            &&& !pv.dependencies[k].optional
                            &&& !pv.dependencies[k].build_only
                            &&& has_installed(
                                self.database.installed_seq(),
                                pv.dependencies[k].name,
                            )
                        }
                    &&& (e is AlreadyInstalled || e is NotFound || e is DependencyNotFound
                        || e is InvalidRequirement)
                },
            },
    {
        if self.database.is_installed(package_name) {
            return Err(PkgError::AlreadyInstalled(package_name.to_owned()));
        }
        let target = match self.find_package(package_name) {
            Some(p) => p,
            None => {
                return Err(PkgError::NotFound(package_name.to_owned()));
            },
        };
        match self.resolve_dependencies(&target) {
            Ok(list) => {
                proof {
                    let pv = crate::types::packages_view(list@);
                    assert(pv.last().name == package_name@);
                    assert forall|i: int|
                        0 <= i < pv.len() implies in_catalog(
                        self.database.indices_seq(),
                        #[trigger] pv[i],
                    ) by {
                        if pv[i] == target@ {
                            assert(in_catalog(self.database.indices_seq(), target@));
                        }
                    }
                }
                Ok(list)
            },
            Err(e) => {
                proof {
                    match &e {
                        PkgError::InvalidRequirement(rq) => {
                            let (pv, k) = choose|pv: PackageView, k: int|
                                {
                                    &&& pv == target@ || in_catalog(
                                        self.database.indices_seq(),
                                        pv,
                                    )
                                    &&& 0 <= k < pv.dependencies.len()
                                    &&& (#[trigger] pv.dependencies[k]).version_req == rq@
                                    &&& !pv.dependencies[k].optional
                                    &&& !pv.dependencies[k].build_only
                                    &&& has_installed(
                                        self.database.installed_seq(),
                                        pv.dependencies[k].name,
                                    )
                                };
                            assert(in_catalog(self.database.indices_seq(), pv));
                            assert(exists|pv2: PackageView, k2: int|
                                {
                                    &&& in_catalog(self.database.indices_seq(), pv2)
                                    &&& 0 <= k2 < pv2.dependencies.len()
                                    &&& (#[trigger] pv2.dependencies[k2]).version_req == rq@
                                    &&& !pv2.dependencies[k2].optional
                                    &&& !pv2.dependencies[k2].build_only
                                    &&& has_installed(
                                        self.database.installed_seq(),
                                        pv2.dependencies[k2].name,
                                    )
                                }) by {
                                assert(pv.dependencies[k].version_req == rq@);
                            }
                        },
                        PkgError::DependencyNotFound(n) => {
                        let (pv, k) = choose|pv: PackageView, k: int|
                            {
                                &&& pv == target@ || in_catalog(self.database.indices_seq(), pv)
                                &&& 0 <= k < pv.dependencies.len()
                                &&& (#[trigger] pv.dependencies[k]).name == n@
                                &&& !pv.dependencies[k].optional
                                &&& !pv.dependencies[k].build_only
                                &&& !dep_satisfied(
                                    self.database.installed_seq(),
                                    pv.dependencies[k],
                                )
                            };
                        assert(in_catalog(self.database.indices_seq(), pv));
                        assert(exists|pv2: PackageView, k2: int|
                            {
                                &&& in_catalog(self.database.indices_seq(), pv2)
                                &&& 0 <= k2 < pv2.dependencies.len()
                                &&& (#[trigger] pv2.dependencies[k2]).name == n@
                                &&& !pv2.dependencies[k2].optional
                                &&& !pv2.dependencies[k2].build_only
                                &&& !dep_satisfied(
                                    self.database.installed_seq(),
                                    pv2.dependencies[k2],
                                )
                            }) by {
                            assert(pv.dependencies[k].name == n@);
                        }
                        },
                        _ => {},
                    }
                }
                Err(e)
            },
        }
    }

    /// Verifies one fetched artifact against its catalog entry: both digests
    /// must match, and, when signature verification is enabled and the
    /// package carries a signature, the oracle's verdict must be positive.
    pub fn verify_artifact(&self, package: &Package, data: &[u8], signature_valid: bool) -> (r:
        Result<(), PkgError>)
        ensures
            match r {
                Ok(_) => {
                    &&& crate::integrity::hex_of(crate::integrity::sha256_of(data@))
                        == package.checksum.sha256@
                    &&& crate::integrity::hex_of(crate::integrity::blake3_of(data@))
                        == package.checksum.blake3@
                    &&& (self.config.verify_signatures && package.signature is Some
                        ==> signature_valid)
                },
                Err(e) => {
                    &&& e matches PkgError::ChecksumMismatch(n) ==> n@ == package.name@ && !(
                    crate::integrity::hex_of(crate::integrity::sha256_of(data@))
                        == package.checksum.sha256@ && crate::integrity::hex_of(
                        crate::integrity::blake3_of(data@),
                    ) == package.checksum.blake3@)
                    &&& e matches PkgError::SignatureInvalid(n) ==> n@ == package.name@
                        && self.config.verify_signatures && package.signature is Some
                        && !signature_valid && crate::integrity::hex_of(
                        crate::integrity::sha256_of(data@),
                    ) == package.checksum.sha256@ && crate::integrity::hex_of(
                        crate::integrity::blake3_of(data@),
                    ) == package.checksum.blake3@
                    &&& (e is ChecksumMismatch || e is SignatureInvalid)
                },
            },
    {
        if !crate::integrity::artifact_checksums_ok(data, &package.checksum) {
            return Err(PkgError::ChecksumMismatch(package.name.clone()));
        }
        if self.config.verify_signatures {
            let has_sig = match &package.signature {
                Some(_) => true,
                None => false,
            };
            if has_sig && !signature_valid {
                return Err(PkgError::SignatureInvalid(package.name.clone()));
            }
        }
        Ok(())
    }

    /// Applies one verified package to the ledger: opens an install audit
    /// record, commits the row atomically, and closes the record. Exactly
    /// this row is appended; a name already present is refused and the
    /// audit record is marked failed.
    pub fn install_package(
        &mut self,
        package: Package,
        files: Vec<InstalledFile>,
        install_date: u64,
        install_reason: InstallReason,
    ) -> (r: Result<(), PkgError>)
        requires
            old(self).database.wf(),
        ensures
            final(self).database.wf(),
            final(self).config == old(self).config,
            final(self).database.indices_seq() == old(self).database.indices_seq(),
            !crate::database::has_pending(old(self).database.transactions_seq()) ==> !crate::database::has_pending(
                final(self).database.transactions_seq(),
            ),
            match r {
                Ok(_) => {
                    &&& old(self).database.next_tx_id() != u64::MAX
                    &&& !has_installed(old(self).database.installed_seq(), package.name@)
                    &&& final(self).database.installed_seq().len() == old(
                        self,
                    ).database.installed_seq().len() + 1
                    &&& final(self).database.installed_seq().drop_last() == old(
                        self,
                    ).database.installed_seq()
                    &&& {
                        let rec = final(self).database.installed_seq().last();
                        &&& rec.package == package
                        &&& rec.install_date == install_date
                        &&& rec.install_path@ == old(self).config.root_dir@
                        &&& rec.files == files
                        &&& rec.install_reason == install_reason
                    }
                },
                Err(e) => {
                    &&& final(self).database.installed_seq() == old(
                        self,
                    ).database.installed_seq()
                    &&& e matches PkgError::AlreadyInstalled(n) ==> has_installed(
                        old(self).database.installed_seq(),
                        package.name@,
                    ) && n@ == package.name@
                    &&& (e is AlreadyInstalled || e is DatabaseError)
                    &&& e is DatabaseError ==> old(self).database.next_tx_id() == u64::MAX
                },
            },
    {
        let name = package.name.clone();
        let new_version = package.version.to_string();
        let tx = match self.database.begin_transaction(
            TransactionType::Install,
            name.as_str(),
            None,
            Some(new_version.as_str()),
        ) {
            Ok(id) => id,
            Err(e) => {
                return Err(e);
            },
        };
        let ghost ts1 = self.database.transactions_seq();
        let rec = InstalledPackage {
            package,
            install_date,
            install_path: self.config.root_dir.clone(),
            files,
            install_reason,
        };
        match self.database.record_installation(rec) {
            Ok(_) => {
                match self.database.complete_transaction(tx) {
                    Ok(_) => {
                        proof {
                            Self::lemma_tx_update_no_pending(
                                ts1,
                                self.database.transactions_seq(),
                                tx,
                                old(self).database.transactions_seq(),
                            );
                        }
                        Ok(())
                    },
                    Err(_) => {
                        proof {
                            assert(ts1.last().id == tx);
                            assert(false);
                        }
                        Err(PkgError::DatabaseError("audit log unreachable".to_owned()))
                    },
                }
            },
            Err(_) => {
                match self.database.fail_transaction(tx, "package is already installed") {
                    Ok(_) => (),
                    Err(_) => {
                        proof {
                            assert(ts1.last().id == tx);
                            assert(false);
                        }
                    },
                };
                proof {
                    Self::lemma_tx_fail_no_pending(
                        ts1,
                        self.database.transactions_seq(),
                        tx,
                        old(self).database.transactions_seq(),
                    );
                }
                Err(PkgError::AlreadyInstalled(name))
            },
        }
    }

    /// After opening a record and completing it, no record is pending that
    /// was not pending before the pair of operations.
    proof fn lemma_tx_update_no_pending(
        ts1: Seq<crate::database::TransactionRecord>,
        ts2: Seq<crate::database::TransactionRecord>,
        tx: u64,
        ts0: Seq<crate::database::TransactionRecord>,
    )
        requires
            ts1.len() == ts0.len() + 1,
            ts1.drop_last() == ts0,
            ts1.last().id == tx,
            crate::database::tx_wf(ts0, tx),
            exists|i: int|
                0 <= i < ts1.len() && (#[trigger] ts1[i]).id == tx && ts2 == ts1.update(
                    i,
                    crate::database::with_status(
                        ts1[i],
                        crate::database::TransactionStatus::Completed,
                    ),
                ),
        ensures
            !crate::database::has_pending(ts0) ==> !crate::database::has_pending(ts2),
    {
        let i = choose|i: int|
            0 <= i < ts1.len() && (#[trigger] ts1[i]).id == tx && ts2 == ts1.update(
                i,
                crate::database::with_status(
                    ts1[i],
                    crate::database::TransactionStatus::Completed,
                ),
            );
        assert(i == ts1.len() - 1) by {
            if i < ts1.len() - 1 {
                assert(ts0[i] == ts1[i]);
                assert(ts0[i].id < tx);
            }
        }
        if !crate::database::has_pending(ts0) {
            assert forall|k: int| 0 <= k < ts2.len() implies !((#[trigger] ts2[k]).status
                is Pending) by {
                if k < ts2.len() - 1 {
                    assert(ts2[k] == ts1[k]);
                    assert(ts1[k] == ts0[k]);
                    if ts0[k].status is Pending {
                        assert(crate::database::has_pending(ts0));
                    }
                } else {
                    assert(ts2[k].status is Completed);
                }
            }
        }
    }

    /// The failing counterpart: the fresh record ends `Failed`, older ones
    /// are untouched.
    proof fn lemma_tx_fail_no_pending(
        ts1: Seq<crate::database::TransactionRecord>,
        ts2: Seq<crate::database::TransactionRecord>,
        tx: u64,
        ts0: Seq<crate::database::TransactionRecord>,
    )
        requires
            ts1.len() == ts0.len() + 1,
            ts1.drop_last() == ts0,
            ts1.last().id == tx,
            crate::database::tx_wf(ts0, tx),
            exists|i: int|
                {
                    &&& 0 <= i < ts1.len()
                    &&& (#[trigger] ts1[i]).id == tx
                    &&& ts2.len() == ts1.len()
                    &&& ts2[i].status is Failed
                    &&& forall|j: int| 0 <= j < ts1.len() && j != i ==> ts2[j] == ts1[j]
                },
        ensures
            !crate::database::has_pending(ts0) ==> !crate::database::has_pending(ts2),
    {
        let i = choose|i: int|
            {
                &&& 0 <= i < ts1.len()
                &&& (#[trigger] ts1[i]).id == tx
                &&& ts2.len() == ts1.len()
                &&& ts2[i].status is Failed
                &&& forall|j: int| 0 <= j < ts1.len() && j != i ==> ts2[j] == ts1[j]
            };
        assert(i == ts1.len() - 1) by {
            if i < ts1.len() - 1 {
                assert(ts0[i] == ts1[i]);
                assert(ts0[i].id < tx);
            }
        }
        if !crate::database::has_pending(ts0) {
            assert forall|k: int| 0 <= k < ts2.len() implies !((#[trigger] ts2[k]).status
                is Pending) by {
                if k < ts2.len() - 1 {
                    assert(ts2[k] == ts1[k]);
                    assert(ts1[k] == ts0[k]);
                    if ts0[k].status is Pending {
                        assert(crate::database::has_pending(ts0));
                    }
                }
            }
        }
    }

    /// The download location of a package's artifact at the preferred
    /// repository: `<url>/packages/<name>-<version>.pkg.tar.zst`.
    pub fn get_package_url(&self, package: &Package) -> (r: Result<String, PkgError>)
        ensures
            match r {
                Ok(url) => self.repositories@.len() > 0 && url@ == self.repositories@[0].url@
                    + "/packages/"@ + package.name@ + "-"@ + crate::version::version_str_of(
                    package.version,
                ) + ".pkg.tar.zst"@,
                Err(e) => self.repositories@.len() == 0 && (e matches PkgError::NotFound(n)
                    && n@ == package.name@),
            },
    {
        if self.repositories.len() == 0 {
            return Err(PkgError::NotFound(package.name.clone()));
        }
        let mut url = self.repositories[0].url.clone();
        url.append("/packages/");
        url.append(package.name.as_str());
        url.append("-");
        let v = package.version.to_string();
        url.append(v.as_str());
        url.append(".pkg.tar.zst");
        Ok(url)
    }
    /// Removes an installed package: refused with `NotFound` when absent and
    /// with `DependencyConflict`, naming the blocking dependents, when other
    /// installed packages still require it (unless cascade removal was
    /// requested) - and then nothing at all is deleted. On success the
    /// package's rows leave the ledger atomically under a remove audit
    /// record, and the files to delete are returned in reverse install
    /// order.
    pub fn remove(&mut self, package_name: &str, cascade: bool) -> (r: Result<
        Vec<String>,
        PkgError,
    >)
        requires
            old(self).database.wf(),
        ensures
            final(self).database.wf(),
            final(self).config == old(self).config,
            final(self).database.indices_seq() == old(self).database.indices_seq(),
            !crate::database::has_pending(old(self).database.transactions_seq())
                ==> !crate::database::has_pending(final(self).database.transactions_seq()),
            match r {
                Ok(paths) => {
                    &&& has_installed(old(self).database.installed_seq(), package_name@)
                    &&& (cascade || dependents_of(
                        old(self).database.installed_seq(),
                        package_name@,
                    ).len() == 0)
                    &&& old(self).database.next_tx_id() != u64::MAX
                    &&& final(self).database.installed_seq() == without_name(
                        old(self).database.installed_seq(),
                        package_name@,
                    )
                    &&& exists|i: int|
                        {
                            &&& 0 <= i < old(self).database.installed_seq().len()
                            &&& (#[trigger] old(self).database.installed_seq()[i]).package.name@
                                == package_name@
                            &&& paths@.len() == old(self).database.installed_seq()[i].files@.len()
                            &&& forall|j: int|
                                0 <= j < paths@.len() ==> (#[trigger] paths@[j])@ == old(
                                    self,
                                ).database.installed_seq()[i].files@[paths@.len() - 1 - j].path@
                        }
                },
                Err(e) => {
                    &&& final(self).database.installed_seq() == old(
                        self,
                    ).database.installed_seq()
                    &&& e matches PkgError::NotFound(n) ==> !has_installed(
                        old(self).database.installed_seq(),
                        package_name@,
                    ) && n@ == package_name@
                    &&& e matches PkgError::DependencyConflict { name: n, dependents: ds } ==> {
                        &&& has_installed(old(self).database.installed_seq(), package_name@)
                        &&& !cascade
                        &&& crate::types::strings_view(ds@) == dependents_of(
                            old(self).database.installed_seq(),
                            package_name@,
                        )
                        &&& ds@.len() > 0
                        &&& n@ == package_name@
                    }
                    &&& (e is NotFound || e is DependencyConflict || e is DatabaseError)
                    &&& e is DatabaseError ==> old(self).database.next_tx_id() == u64::MAX
                },
            },
    {
        if !self.database.is_installed(package_name) {
            return Err(PkgError::NotFound(package_name.to_owned()));
        }
        let dependents = self.database.get_dependents(package_name);
        if dependents.len() > 0 && !cascade {
            proof {
                assert(crate::types::strings_view(dependents@).len() == dependents@.len());
            }
            return Err(
                PkgError::DependencyConflict { name: package_name.to_owned(), dependents },
            );
        }
        let ghost inst0 = self.database.installed_seq();
        let ghost gi: int;
        let mut paths: Vec<String> = Vec::new();
        let mut old_version: String;
        {
            let rec = match self.database.get_installed_package(package_name) {
                Ok(rec) => rec,
                Err(_) => {
                    proof {
                        assert(false);
                    }
                    return Err(PkgError::DatabaseError("unreachable".to_owned()));
                },
            };
            proof {
                gi = choose|i: int|
                    0 <= i < self.database.installed_seq().len()
                        && self.database.installed_seq()[i] == *rec;
            }
            let n = rec.files.len();
            let mut j: usize = 0;
            while j < n
                invariant
                    j <= n,
                    n == rec.files@.len(),
                    paths@.len() == j,
                    forall|k: int|
                        0 <= k < j ==> (#[trigger] paths@[k])@ == rec.files@[n - 1 - k].path@,
                decreases n - j,
            {
                paths.push(rec.files[n - 1 - j].path.clone());
                j = j + 1;
            }
            old_version = rec.package.version.to_string();
            proof {
                assert(inst0[gi] == *rec);
            }
        }
        let tx = match self.database.begin_transaction(
            TransactionType::Remove,
            package_name,
            Some(old_version.as_str()),
            None,
        ) {
            Ok(id) => id,
            Err(e) => {
                return Err(e);
            },
        };
        let ghost ts1 = self.database.transactions_seq();
        match self.database.mark_removed(package_name) {
            Ok(_) => (),
            Err(_) => {
                proof {
                    assert(false);
                }
                return Err(PkgError::DatabaseError("unreachable".to_owned()));
            },
        };
        match self.database.complete_transaction(tx) {
            Ok(_) => (),
            Err(_) => {
                proof {
                    assert(ts1.last().id == tx);
                    assert(false);
                }
                return Err(PkgError::DatabaseError("unreachable".to_owned()));
            },
        };
        proof {
            Self::lemma_tx_update_no_pending(
                ts1,
                self.database.transactions_seq(),
                tx,
                old(self).database.transactions_seq(),
            );
        }
        Ok(paths)
    }

    /// Best-effort single-pass orphan sweep: removes each package that the
    /// ledger reported orphaned, skipping any that cannot be removed, and
    /// returns the files to delete. Nothing is ever added to the ledger.
    pub fn remove_orphans(&mut self) -> (r: Vec<String>)
        requires
            old(self).database.wf(),
        ensures
            final(self).database.wf(),
            final(self).config == old(self).config,
            final(self).database.indices_seq() == old(self).database.indices_seq(),
            !crate::database::has_pending(old(self).database.transactions_seq())
                ==> !crate::database::has_pending(final(self).database.transactions_seq()),
            forall|n: Seq<char>|
                has_installed(final(self).database.installed_seq(), n) ==> has_installed(
                    old(self).database.installed_seq(),
                    n,
                ),
    {
        let orphans = self.database.find_orphans();
        let mut paths: Vec<String> = Vec::new();
        let mut i: usize = 0;
        while i < orphans.len()
            invariant
                self.database.wf(),
                self.config == old(self).config,
                self.database.indices_seq() == old(self).database.indices_seq(),
                !crate::database::has_pending(old(self).database.transactions_seq())
                    ==> !crate::database::has_pending(self.database.transactions_seq()),
                forall|n: Seq<char>|
                    has_installed(self.database.installed_seq(), n) ==> has_installed(
                        old(self).database.installed_seq(),
                        n,
                    ),
            decreases orphans@.len() - i,
        {
            let ghost mid = self.database.installed_seq();
            match self.remove(orphans[i].as_str(), false) {
                Ok(mut ps) => {
                    proof {
                        assert forall|n: Seq<char>|
                            has_installed(self.database.installed_seq(), n) implies has_installed(
                            old(self).database.installed_seq(),
                            n,
                        ) by {
                            if has_installed(self.database.installed_seq(), n) {
                                crate::database::lemma_without_name_keeps(
                                    mid,
                                    orphans@[i as int]@,
                                    n,
                                );
                            }
                        }
                    }
                    while ps.len() > 0
                        invariant
                            true,
                        decreases ps@.len(),
                    {
                        match ps.pop() {
                            Some(p) => paths.push(p),
                            None => (),
                        };
                    }
                },
                Err(_) => (),
            };
            i = i + 1;
        }
        paths
    }

    /// The view of name/latest pairs.
    pub open spec fn pairs_view(s: Seq<(String, Package)>) -> Seq<(Seq<char>, PackageView)> {
        s.map_values(|t: (String, Package)| (t.0@, t.1@))
    }

    /// The installed packages that are outdated against the catalogs, each
    /// with the latest version on offer.
    pub open spec fn outdated_of(
        inst: Seq<InstalledPackage>,
        ind: Seq<RepositoryIndex>,
    ) -> Seq<(Seq<char>, PackageView)>
        decreases inst.len(),
    {
        if inst.len() == 0 {
            Seq::empty()
        } else {
            let rest = Self::outdated_of(inst.drop_last(), ind);
            match find_spec(ind, inst.last().package.name@) {
                Some(l) => if version_lt(inst.last().package.version, l.version) {
                    rest.push((inst.last().package.name@, l@))
                } else {
                    rest
                },
                None => rest,
            }
        }
    }

    /// Compares every installed package against the catalogs and returns
    /// the outdated ones with their latest available versions.
    pub fn check_updates(&self) -> (r: Vec<(String, Package)>)
        requires
            self.database.wf(),
        ensures
            Self::pairs_view(r@) == Self::outdated_of(
                self.database.installed_seq(),
                self.database.indices_seq(),
            ),
    {
        let ghost inst = self.database.installed_seq();
        let ghost ind = self.database.indices_seq();
        let installed = self.database.get_installed_packages();
        let mut r: Vec<(String, Package)> = Vec::new();
        let mut i: usize = 0;
        while i < installed.len()
            invariant
                i <= installed@.len(),
                installed@ == inst,
                inst == self.database.installed_seq(),
                ind == self.database.indices_seq(),
                self.database.wf(),
                Self::pairs_view(r@) =~~= Self::outdated_of(inst.take(i as int), ind),
            decreases installed@.len() - i,
        {
            proof {
                assert(inst.take(i + 1).drop_last() =~= inst.take(i as int));
                assert(inst.take(i + 1).last() == inst[i as int]);
            }
            let p = &installed[i];
            match self.find_package(p.package.name.as_str()) {
                Some(latest) => {
                    if p.package.version.lt(&latest.version) {
                        r.push((p.package.name.clone(), latest));
                    }
                },
                None => (),
            };
            assert(Self::pairs_view(r@) =~~= Self::outdated_of(inst.take(i + 1), ind));
            i = i + 1;
        }
        assert(inst.take(inst.len() as int) =~= inst);
        r
    }

    /// Which installed files are configuration to back up before an
    /// upgrade: those under `/etc`, each paired with its backup location
    /// `<path>.hecate-backup`.
    pub fn config_backup_plan(files: &Vec<InstalledFile>) -> (r: Vec<(String, String)>)
        ensures
            crate::types::strings_view(r@.map_values(|t: (String, String)| t.0))
                =~~= backup_sources_of(files@),
            forall|k: int|
                0 <= k < r@.len() ==> (#[trigger] r@[k]).1@ == r@[k].0@ + ".hecate-backup"@,
    {
        let mut r: Vec<(String, String)> = Vec::new();
        let mut i: usize = 0;
        while i < files.len()
            invariant
                i <= files@.len(),
                crate::types::strings_view(r@.map_values(|t: (String, String)| t.0))
                    =~~= backup_sources_of(files@.take(i as int)),
                forall|k: int|
                    0 <= k < r@.len() ==> (#[trigger] r@[k]).1@ == r@[k].0@ + ".hecate-backup"@,
            decreases files@.len() - i,
        {
            proof {
                assert(files@.take(i + 1).drop_last() =~= files@.take(i as int));
                assert(files@.take(i + 1).last() == files@[i as int]);
            }
            let f = &files[i];
            if crate::strutil::str_has_prefix(f.path.as_str(), "/etc") {
                let mut backup = f.path.clone();
                backup.append(".hecate-backup");
                r.push((f.path.clone(), backup));
            }
            assert(crate::types::strings_view(r@.map_values(|t: (String, String)| t.0))
                =~~= backup_sources_of(files@.take(i + 1)));
            i = i + 1;
        }
        assert(files@.take(files@.len() as int) =~= files@);
        r
    }

    /// After an upgrade, a backed-up configuration whose bytes differ from
    /// the newly installed file keeps both copies; an identical backup is
    /// discarded.
    pub fn reconcile_config(old_bytes: &[u8], new_bytes: &[u8]) -> (r: ConfigAction)
        ensures
            r == if old_bytes@ == new_bytes@ {
                ConfigAction::DiscardBackup
            } else {
                ConfigAction::KeepBoth
            },
    {
        if old_bytes.len() != new_bytes.len() {
            assert(old_bytes@ != new_bytes@);
            return ConfigAction::KeepBoth;
        }
        let mut i: usize = 0;
        while i < old_bytes.len()
            invariant
                i <= old_bytes@.len(),
                old_bytes@.len() == new_bytes@.len(),
                forall|k: int| 0 <= k < i ==> old_bytes@[k] == new_bytes@[k],
            decreases old_bytes@.len() - i,
        {
            if old_bytes[i] != new_bytes[i] {
                assert(old_bytes@ != new_bytes@) by {
                    assert(old_bytes@[i as int] != new_bytes@[i as int]);
                }
                return ConfigAction::KeepBoth;
            }
            i = i + 1;
        }
        assert(old_bytes@ =~= new_bytes@);
        ConfigAction::DiscardBackup
    }

    /// The sibling name a replaced configuration file is installed under
    /// when the old copy is kept: `<path>.hecate-new`.
    pub fn hecate_new_path(path: &str) -> (r: String)
        ensures
            r@ == path@ + ".hecate-new"@,
    {
        let mut s = path.to_owned();
        s.append(".hecate-new");
        s
    }
    /// Does any keyword contain the query?
    fn any_keyword_contains(kws: &Vec<String>, query: &str) -> (r: bool)
        ensures
            r == exists|t: int|
                0 <= t < kws@.len() && crate::strutil::contains_seq(
                    (#[trigger] kws@[t])@,
                    query@,
                ),
    {
        let mut k: usize = 0;
        while k < kws.len()
            invariant
                k <= kws@.len(),
                forall|t: int|
                    0 <= t < k ==> !crate::strutil::contains_seq((#[trigger] kws@[t])@, query@),
            decreases kws@.len() - k,
        {
            if crate::strutil::str_contains(kws[k].as_str(), query) {
                assert(crate::strutil::contains_seq(kws@[k as int]@, query@));
                return true;
            }
            k = k + 1;
        }
        false
    }

    /// Scans every catalog in priority order: an entry whose name contains
    /// the query contributes all its versions; otherwise a version matches
    /// when its description contains the query case-insensitively or some
    /// keyword contains it. Duplicates across repositories are kept.
    pub fn search(&self, query: &str) -> (r: Vec<Package>)
        requires
            self.database.wf(),
        ensures
            crate::types::packages_view(r@) == search_in(self.database.indices_seq(), query@),
    {
        let ghost ind = self.database.indices_seq();
        let ghost q = query@;
        let query_lower = crate::strutil::lowercase(query);
        let indices = self.database.get_repository_indices();
        let mut r: Vec<Package> = Vec::new();
        assert(crate::types::packages_view(r@) =~~= search_in(ind.take(0), q));
        let mut a: usize = 0;
        while a < indices.len()
            invariant
                a <= indices@.len(),
                indices@ == ind,
                ind == self.database.indices_seq(),
                q == query@,
                query_lower@ == crate::strutil::lower_of(q),
                crate::types::packages_view(r@) =~~= search_in(ind.take(a as int), q),
            decreases indices@.len() - a,
        {
            let es = &indices[a].packages;
            let ghost base = search_in(ind.take(a as int), q);
            assert(crate::types::packages_view(r@) =~~= base + search_entries(es@.take(0), q));
            let mut b: usize = 0;
            while b < es.len()
                invariant
                    b <= es@.len(),
                    indices@ == ind,
                    ind == self.database.indices_seq(),
                    a < ind.len(),
                    es@ == ind[a as int].packages@,
                    q == query@,
                    query_lower@ == crate::strutil::lower_of(q),
                    base == search_in(ind.take(a as int), q),
                    crate::types::packages_view(r@) =~~= base + search_entries(
                        es@.take(b as int),
                        q,
                    ),
                decreases es@.len() - b,
            {
                proof {
                    assert(es@.take(b + 1).drop_last() =~= es@.take(b as int));
                    assert(es@.take(b + 1).last() == es@[b as int]);
                }
                let entry = &es[b];
                let name_hit = crate::strutil::str_contains(entry.name.as_str(), query);
                let ghost vbase = base + search_entries(es@.take(b as int), q);
                let ghost ps = entry.versions@;
                assert(crate::types::packages_view(r@) =~~= vbase + search_versions(
                    ps.take(0),
                    q,
                    name_hit,
                ));
                let mut c: usize = 0;
                while c < entry.versions.len()
                    invariant
                        c <= ps.len(),
                        ps == entry.versions@,
                        a < ind.len(),
                        b < es@.len(),
                        es@ == ind[a as int].packages@,
                        ps == es@[b as int].versions@,
                        q == query@,
                        query_lower@ == crate::strutil::lower_of(q),
                        name_hit == crate::strutil::contains_seq(es@[b as int].name@, q),
                        crate::types::packages_view(r@) =~~= vbase + search_versions(
                            ps.take(c as int),
                            q,
                            name_hit,
                        ),
                    decreases ps.len() - c,
                {
                    proof {
                        assert(ps.take(c + 1).drop_last() =~= ps.take(c as int));
                        assert(ps.take(c + 1).last() == ps[c as int]);
                    }
                    let pkg = &entry.versions[c];
                    let mut hit = name_hit;
                    if !hit {
                        let desc_lower = crate::strutil::lowercase(pkg.description.as_str());
                        if crate::strutil::str_contains(
                            desc_lower.as_str(),
                            query_lower.as_str(),
                        ) {
                            hit = true;
                        } else if Self::any_keyword_contains(&pkg.keywords, query) {
                            hit = true;
                        }
                    }
                    assert(hit == (name_hit || pkg_matches(ps[c as int], q)));
                    let ghost r_old = r@;
                    if hit {
                        r.push(pkg.clone());
                    }
                    proof {
                        if hit {
                            assert(search_versions(ps.take(c + 1), q, name_hit)
                                == search_versions(ps.take(c as int), q, name_hit).push(
                                ps[c as int]@,
                            ));
                            assert(r@ == r_old.push(r@.last()));
                            assert(r@.last()@ == ps[c as int]@);
                            assert(crate::types::packages_view(r@)
                                =~~= crate::types::packages_view(r_old).push(ps[c as int]@));
                            assert(crate::types::packages_view(r_old).push(ps[c as int]@)
                                =~~= vbase + search_versions(ps.take(c + 1), q, name_hit));
                        } else {
                            assert(search_versions(ps.take(c + 1), q, name_hit)
                                == search_versions(ps.take(c as int), q, name_hit));
                        }
                        assert(crate::types::packages_view(r@) =~~= vbase + search_versions(
                            ps.take(c + 1),
                            q,
                            name_hit,
                        ));
                    }
                    c = c + 1;
                }
                proof {
                    assert(ps.take(ps.len() as int) =~= ps);
                    assert(search_entries(es@.take(b + 1), q) =~= search_entries(
                        es@.take(b as int),
                        q,
                    ) + search_versions(ps, q, name_hit));
                    assert(crate::types::packages_view(r@) =~~= base + search_entries(
                        es@.take(b + 1),
                        q,
                    ));
                }
                b = b + 1;
            }
            proof {
                assert(es@.take(es@.len() as int) =~= es@);
                assert(ind.take(a + 1).drop_last() =~= ind.take(a as int));
                assert(ind.take(a + 1).last() == ind[a as int]);
                assert(search_in(ind.take(a + 1), q) =~= base + search_entries(es@, q));
                assert(crate::types::packages_view(r@) =~~= search_in(ind.take(a + 1), q));
            }
            a = a + 1;
        }
        assert(ind.take(ind.len() as int) =~= ind);
        r
    }
}

/// A version matches the query by description (case-insensitively) or by
/// one of its keywords.
pub open spec fn pkg_matches(p: Package, q: Seq<char>) -> bool {
    ||| crate::strutil::contains_seq(
        crate::strutil::lower_of(p.description@),
        crate::strutil::lower_of(q),
    )
    ||| exists|t: int|
        0 <= t < p.keywords@.len() && crate::strutil::contains_seq(
            (#[trigger] p.keywords@[t])@,
            q,
        )
}

/// The versions of one entry that the search reports.
pub open spec fn search_versions(ps: Seq<Package>, q: Seq<char>, name_hit: bool) -> Seq<
    PackageView,
>
    decreases ps.len(),
{
    if ps.len() == 0 {
        Seq::empty()
    } else {
        let rest = search_versions(ps.drop_last(), q, name_hit);
        if name_hit || pkg_matches(ps.last(), q) {
            rest.push(ps.last()@)
        } else {
            rest
        }
    }
}

/// The search results of one catalog, entry by entry.
pub open spec fn search_entries(es: Seq<PackageEntry>, q: Seq<char>) -> Seq<PackageView>
    decreases es.len(),
{
    if es.len() == 0 {
        Seq::empty()
    } else {
        search_entries(es.drop_last(), q) + search_versions(
            es.last().versions@,
            q,
            crate::strutil::contains_seq(es.last().name@, q),
        )
    }
}

/// The search results across every catalog, in priority order.
pub open spec fn search_in(is: Seq<RepositoryIndex>, q: Seq<char>) -> Seq<PackageView>
    decreases is.len(),
{
    if is.len() == 0 {
        Seq::empty()
    } else {
        search_in(is.drop_last(), q) + search_entries(is.last().packages@, q)
    }
}

/// What to do with a backed-up configuration file after an upgrade.
#[derive(Clone, Copy, PartialEq, Eq, Structural, Debug)]
pub enum ConfigAction {
    KeepBoth,
    DiscardBackup,
}

/// The `/etc` paths of an install's file list, in order.
pub open spec fn backup_sources_of(fs: Seq<InstalledFile>) -> Seq<Seq<char>>
    decreases fs.len(),
{
    if fs.len() == 0 {
        Seq::empty()
    } else {
        let rest = backup_sources_of(fs.drop_last());
        if crate::strutil::has_prefix(fs.last().path@, "/etc"@) {
            rest.push(fs.last().path@)
        } else {
            rest
        }
    }
}

/// A mandatory dependency that what is installed does not meet.
pub open spec fn dep_unmet(inst: Seq<InstalledPackage>, d: crate::types::DependencyView) -> bool {
    !d.optional && !d.build_only && !dep_satisfied(inst, d)
}

/// The package carries an unmet mandatory dependency named `n`.
#[verifier::opaque]
pub open spec fn pkg_demands(inst: Seq<InstalledPackage>, p: Package, n: Seq<char>) -> bool {
    exists|k: int|
        0 <= k < p.dependencies@.len() && dep_unmet(
            inst,
            #[trigger] crate::types::deps_view(p.dependencies@)[k],
        ) && crate::types::deps_view(p.dependencies@)[k].name == n
}

/// Plan member `m` carries an unmet mandatory dependency named `n`.
pub open spec fn plan_demands(
    inst: Seq<InstalledPackage>,
    pv: Seq<PackageView>,
    m: int,
    n: Seq<char>,
) -> bool {
    exists|k: int|
        0 <= k < pv[m].dependencies.len() && dep_unmet(inst, #[trigger] pv[m].dependencies[k])
            && pv[m].dependencies[k].name == n
}

/// Some package (the target or a catalog entry) demands a mandatory
/// dependency of this name that what is installed does not meet.
pub open spec fn unmet_demand(
    tgt: PackageView,
    ind: Seq<RepositoryIndex>,
    inst: Seq<InstalledPackage>,
    n: Seq<char>,
) -> bool {
    exists|pv: PackageView, k: int|
        {
            &&& pv == tgt || in_catalog(ind, pv)
            &&& 0 <= k < pv.dependencies.len()
            &&& (#[trigger] pv.dependencies[k]).name == n
            &&& !pv.dependencies[k].optional
            &&& !pv.dependencies[k].build_only
            &&& !dep_satisfied(inst, pv.dependencies[k])
        }
}

/// Some package (the target or a catalog entry) carries a mandatory
/// dependency on an installed name whose requirement range is this very
/// string; resolution parses exactly such ranges.
pub open spec fn unparsed_demand(
    tgt: PackageView,
    ind: Seq<RepositoryIndex>,
    inst: Seq<InstalledPackage>,
    rq: Seq<char>,
) -> bool {
    exists|pv: PackageView, k: int|
        {
            &&& pv == tgt || in_catalog(ind, pv)
            &&& 0 <= k < pv.dependencies.len()
            &&& (#[trigger] pv.dependencies[k]).version_req == rq
            &&& !pv.dependencies[k].optional
            &&& !pv.dependencies[k].build_only
            &&& has_installed(inst, pv.dependencies[k].name)
        }
}

/// The dependency is settled with respect to a plan: optional, build-only,
/// met by an installed package, or planned under its own name.
pub open spec fn dep_settled_in_plan(
    inst: Seq<InstalledPackage>,
    pv: Seq<PackageView>,
    d: crate::types::DependencyView,
) -> bool {
    d.optional || d.build_only || dep_satisfied(inst, d) || exists|q: int|
        0 <= q < pv.len() && (#[trigger] pv[q]).name == d.name
}

} // verus!