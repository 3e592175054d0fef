//! The artifact cache: deterministic path mapping and space management over
//! a model of the cached artifacts, newest first.

use vstd::prelude::*;
use vstd::string::{StrSliceExecFns, StringExecFns};
use crate::strutil::{contains_seq, str_contains};
use crate::types::Package;
use crate::version::version_str_of;

verus! {

/// One cached artifact: its file name, modification time (seconds), and size.
#[derive(Debug)]
pub struct CacheEntry {
    pub name: String,
    pub mtime: u64,
    pub size: u64,
}

impl Clone for CacheEntry {
    fn clone(&self) -> (r: Self)
        ensures
            r == self,
    {
        CacheEntry { name: self.name.clone(), mtime: self.mtime, size: self.size }
    }
}

/// Entries are ordered newest first.
pub open spec fn sorted_newest_first(s: Seq<CacheEntry>) -> bool {
    forall|i: int, j: int|
        0 <= i < j < s.len() ==> (#[trigger] s[i]).mtime >= (#[trigger] s[j]).mtime
}

/// The total size of the entries, as a mathematical integer.
pub open spec fn total_size_of(s: Seq<CacheEntry>) -> int
    decreases s.len(),
{
    if s.len() == 0 {
        0
    } else {
        total_size_of(s.drop_last()) + s.last().size
    }
}

/// How many entries are delta artifacts.
pub open spec fn delta_count_of(s: Seq<CacheEntry>) -> int
    decreases s.len(),
{
    if s.len() == 0 {
        0
    } else {
        delta_count_of(s.drop_last()) + if contains_seq(s.last().name@, ".delta."@) {
            1int
        } else {
            0int
        }
    }
}

/// What `clean` keeps: the `keep` newest entries.
pub open spec fn clean_kept(s: Seq<CacheEntry>, keep: int) -> Seq<CacheEntry> {
    if s.len() <= keep {
        s
    } else {
        s.take(keep)
    }
}

/// What `clean` deletes: everything beyond the `keep` newest entries.
pub open spec fn clean_removed(s: Seq<CacheEntry>, keep: int) -> Seq<CacheEntry> {
    if s.len() <= keep {
        Seq::empty()
    } else {
        s.skip(keep)
    }
}

/// The bytes `clean` frees.
pub open spec fn clean_freed(s: Seq<CacheEntry>, keep: int) -> int {
    total_size_of(clean_removed(s, keep))
}

/// Cleaning is idempotent: a second run with the same bound frees nothing
/// and removes nothing.
pub proof fn lemma_clean_twice_frees_nothing(s: Seq<CacheEntry>, keep: int)
    requires
        keep >= 0,
    ensures
        clean_kept(clean_kept(s, keep), keep) == clean_kept(s, keep),
        clean_removed(clean_kept(s, keep), keep) == Seq::<CacheEntry>::empty(),
        clean_freed(clean_kept(s, keep), keep) == 0,
{
    let kept = clean_kept(s, keep);
    assert(kept.len() <= keep);
}

/// What `prune_to_size` leaves: drop oldest entries until the total fits,
/// but never drop the single newest entry.
pub open spec fn pruned_kept(s: Seq<CacheEntry>, max: int) -> Seq<CacheEntry>
    decreases s.len(),
{
    if s.len() <= 1 || total_size_of(s) <= max {
        s
    } else {
        pruned_kept(s.drop_last(), max)
    }
}

/// What `prune_to_size` deletes, oldest first.
pub open spec fn pruned_removed(s: Seq<CacheEntry>, max: int) -> Seq<CacheEntry>
    decreases s.len(),
{
    if s.len() <= 1 || total_size_of(s) <= max {
        Seq::empty()
    } else {
        seq![s.last()] + pruned_removed(s.drop_last(), max)
    }
}

/// Pruning leaves the total within the bound, unless a single remaining
/// entry alone exceeds it.
pub proof fn lemma_prune_meets_bound(s: Seq<CacheEntry>, max: int)
    ensures
        total_size_of(pruned_kept(s, max)) <= max || pruned_kept(s, max).len() <= 1,
    decreases s.len(),
{
    if !(s.len() <= 1 || total_size_of(s) <= max) {
        lemma_prune_meets_bound(s.drop_last(), max);
    }
}

/// What `clean_old` keeps: the entries at or after the cutoff.
pub open spec fn fresh_kept(s: Seq<CacheEntry>, cutoff: int) -> Seq<CacheEntry>
    decreases s.len(),
{
    if s.len() == 0 {
        Seq::empty()
    } else {
        let rest = fresh_kept(s.drop_last(), cutoff);
        if s.last().mtime < cutoff {
            rest
        } else {
            rest.push(s.last())
        }
    }
}

/// What `clean_old` deletes: the entries strictly older than the cutoff.
pub open spec fn stale_removed(s: Seq<CacheEntry>, cutoff: int) -> Seq<CacheEntry>
    decreases s.len(),
{
    if s.len() == 0 {
        Seq::empty()
    } else {
        let rest = stale_removed(s.drop_last(), cutoff);
        if s.last().mtime < cutoff {
            rest.push(s.last())
        } else {
            rest
        }
    }
}

/// The cutoff for `clean_old`: `days` ago, clamped at zero.
pub open spec fn cutoff_of(now: u64, days: u64) -> int {
    if days * 86400 <= now {
        now - days * 86400
    } else {
        0
    }
}

proof fn lemma_total_size_nonneg(s: Seq<CacheEntry>)
    ensures
        total_size_of(s) >= 0,
    decreases s.len(),
{
    if s.len() > 0 {
        lemma_total_size_nonneg(s.drop_last());
    }
}

/// Counts over the cache contents.
#[derive(Debug)]
pub struct CacheStats {
    pub total_size: u64,
    pub package_count: usize,
    pub delta_count: usize,
    pub cache_dir: String,
}

/// The cache: its directory and its view of the artifacts in it, newest
/// first. The caller performs the actual file deletions that the space
/// management functions decide, and registers what it scans or downloads.
pub struct PackageCache {
    cache_dir: String,
    entries: Vec<CacheEntry>,
}

impl PackageCache {
    pub closed spec fn dir_view(self) -> Seq<char> {
        self.cache_dir@
    }

    pub closed spec fn entries_seq(self) -> Seq<CacheEntry> {
        self.entries@
    }

    pub open spec fn wf(self) -> bool {
        sorted_newest_first(self.entries_seq())
    }

    /// A cache over the given directory, initially empty.
    pub fn new(cache_dir: &str) -> (c: PackageCache)
        ensures
            c.wf(),
            c.dir_view() == cache_dir@,
            c.entries_seq() == Seq::<CacheEntry>::empty(),
    {
        PackageCache { cache_dir: cache_dir.to_owned(), entries: Vec::new() }
    }

    /// The registered artifacts, newest first.
    pub fn entries(&self) -> (r: &Vec<CacheEntry>)
        ensures
            r@ == self.entries_seq(),
    {
        &self.entries
    }

    /// The artifact file name for a package: `name-version.pkg.tar.zst`
    /// under the cache directory.
    pub fn get_package_path(&self, package: &Package) -> (r: String)
        ensures
            r@ == self.dir_view() + "/"@ + package.name@ + "-"@ + version_str_of(package.version)
                + ".pkg.tar.zst"@,
    {
        let mut s = self.cache_dir.clone();
        s.append("/");
        s.append(package.name.as_str());
        s.append("-");
        let v = package.version.to_string();
        s.append(v.as_str());
        s.append(".pkg.tar.zst");
        s
    }

    /// The delta artifact name between two versions:
    /// `name-from-to-version.delta.zst` under the `deltas` subdirectory.
    pub fn get_delta_path(&self, package: &Package, from_version: &str) -> (r: String)
        ensures
            r@ == self.dir_view() + "/deltas/"@ + package.name@ + "-"@ + from_version@ + "-to-"@
                + version_str_of(package.version) + ".delta.zst"@,
    {
        let mut s = self.cache_dir.clone();
        s.append("/deltas/");
        s.append(package.name.as_str());
        s.append("-");
        s.append(from_version);
        s.append("-to-");
        let v = package.version.to_string();
        s.append(v.as_str());
        s.append(".delta.zst");
        s
    }

    /// Registers an artifact the caller scanned or downloaded, keeping the
    /// newest-first order; it goes after any entry at least as recent.
    pub fn note_artifact(&mut self, name: String, mtime: u64, size: u64)
        requires
            old(self).wf(),
        ensures
            final(self).wf(),
            final(self).dir_view() == old(self).dir_view(),
            exists|q: int|
                {
                    &&& 0 <= q <= old(self).entries_seq().len()
                    &&& final(self).entries_seq() == old(self).entries_seq().insert(
                        q,
                        CacheEntry { name, mtime, size },
                    )
                    &&& forall|k: int|
                        0 <= k < q ==> (#[trigger] old(self).entries_seq()[k]).mtime >= mtime
                    &&& forall|k: int|
                        q <= k < old(self).entries_seq().len() ==> (#[trigger] old(self).entries_seq()[k]).mtime < mtime
                },
    {
        let ghost s0 = self.entries@;
        let mut q: usize = 0;
        while q < self.entries.len() && self.entries[q].mtime >= mtime
            invariant
                q <= self.entries@.len(),
                self.entries@ == s0,
                self.cache_dir@ == old(self).dir_view(),
                forall|k: int| 0 <= k < q ==> (#[trigger] s0[k]).mtime >= mtime,
            decreases self.entries@.len() - q,
        {
            q = q + 1;
        }
        proof {
            if q < s0.len() {
                assert(s0[q as int].mtime < mtime);
                assert forall|k: int| q <= k < s0.len() implies (#[trigger] s0[k]).mtime
                    < mtime by {
                    if k > q {
                        assert(s0[q as int].mtime >= s0[k].mtime);
                    }
                }
            }
        }
        let entry = CacheEntry { name, mtime, size };
        self.entries.insert(q, entry);
        proof {
            let t = self.entries@;
            assert forall|a: int, b: int|
                0 <= a < b < t.len() implies (#[trigger] t[a]).mtime >= (
            #[trigger] t[b]).mtime by {
                if a == q {
                    assert(t[b] == s0[b - 1]);
                } else if b == q {
                    assert(t[a] == s0[a]);
                } else {
                    let a2: int = if a < q { a } else { a - 1 };
                    let b2: int = if b < q { b } else { b - 1 };
                    assert(t[a] == s0[a2]);
                    assert(t[b] == s0[b2]);
                }
            }
        }
    }

    /// Keeps only the `keep_count` most recent artifacts; returns what to
    /// delete and the bytes freed. Run twice, the second run frees nothing.
    pub fn clean(&mut self, keep_count: usize) -> (r: (Vec<CacheEntry>, u64))
        requires
            old(self).wf(),
        ensures
            final(self).wf(),
            final(self).dir_view() == old(self).dir_view(),
            final(self).entries_seq() == clean_kept(old(self).entries_seq(), keep_count as int),
            r.0@ == clean_removed(old(self).entries_seq(), keep_count as int),
            r.1 == if clean_freed(old(self).entries_seq(), keep_count as int) > u64::MAX {
                u64::MAX as int
            } else {
                clean_freed(old(self).entries_seq(), keep_count as int)
            },
            old(self).entries_seq().len() <= keep_count ==> r.1 == 0 && final(self).entries_seq()
                == old(self).entries_seq(),
    {
        let ghost s0 = self.entries@;
        if self.entries.len() <= keep_count {
            return (Vec::new(), 0);
        }
        let mut removed: Vec<CacheEntry> = Vec::new();
        let mut freed: u64 = 0;
        let mut i: usize = keep_count;
        while i < self.entries.len()
            invariant
                keep_count <= i <= self.entries@.len(),
                self.entries@ == s0,
                self.cache_dir@ == old(self).dir_view(),
                keep_count < s0.len(),
                removed@ == s0.subrange(keep_count as int, i as int),
                freed == if total_size_of(s0.subrange(keep_count as int, i as int)) > u64::MAX {
                    u64::MAX as int
                } else {
                    total_size_of(s0.subrange(keep_count as int, i as int))
                },
            decreases self.entries@.len() - i,
        {
            proof {
                let part = s0.subrange(keep_count as int, i + 1);
                assert(part.drop_last() =~= s0.subrange(keep_count as int, i as int));
                assert(part.last() == s0[i as int]);
                lemma_total_size_nonneg(s0.subrange(keep_count as int, i as int));
            }
            let e = self.entries[i].clone();
            let sz = e.size;
            removed.push(e);
            assert(removed@ =~= s0.subrange(keep_count as int, i + 1));
            if sz > u64::MAX - freed {
                freed = u64::MAX;
            } else {
                freed = freed + sz;
            }
            i = i + 1;
        }
        assert(s0.subrange(keep_count as int, s0.len() as int) =~= s0.skip(keep_count as int));
        self.entries.truncate(keep_count);
        proof {
            assert(self.entries@ == s0.take(keep_count as int));
            assert forall|a: int, b: int|
                0 <= a < b < self.entries@.len() implies (#[trigger] self.entries@[a]).mtime >= (
            #[trigger] self.entries@[b]).mtime by {
                assert(self.entries@[a] == s0[a]);
                assert(self.entries@[b] == s0[b]);
            }
        }
        (removed, freed)
    }

    /// Deletes artifacts older than `days` days before `now`; returns what
    /// to delete and the bytes freed.
    pub fn clean_old(&mut self, days: u64, now: u64) -> (r: (Vec<CacheEntry>, u64))
        requires
            old(self).wf(),
        ensures
            final(self).wf(),
            final(self).dir_view() == old(self).dir_view(),
            final(self).entries_seq() == fresh_kept(
                old(self).entries_seq(),
                cutoff_of(now, days),
            ),
            r.0@ == stale_removed(old(self).entries_seq(), cutoff_of(now, days)),
            r.1 == if total_size_of(stale_removed(old(self).entries_seq(), cutoff_of(now, days)))
                > u64::MAX {
                u64::MAX as int
            } else {
                total_size_of(stale_removed(old(self).entries_seq(), cutoff_of(now, days)))
            },
    {
        let cutoff: u64 = if days <= now / 86400 {
            proof {
                assert(days * 86400 <= (now / 86400) * 86400 <= now) by (nonlinear_arith)
                    requires
                        days <= now / 86400,
                ;
            }
            now - days * 86400
        } else {
            proof {
                assert(days * 86400 > now) by (nonlinear_arith)
                    requires
                        days > now / 86400,
                ;
            }
            0
        };
        let ghost s0 = self.entries@;
        let mut kept: Vec<CacheEntry> = Vec::new();
        let mut removed: Vec<CacheEntry> = Vec::new();
        let mut freed: u64 = 0;
        let mut i: usize = 0;
        while i < self.entries.len()
            invariant
                i <= self.entries@.len(),
                self.entries@ == s0,
                self.cache_dir@ == old(self).dir_view(),
                cutoff == cutoff_of(now, days),
                kept@ == fresh_kept(s0.take(i as int), cutoff as int),
                removed@ == stale_removed(s0.take(i as int), cutoff as int),
                freed == if total_size_of(stale_removed(s0.take(i as int), cutoff as int))
                    > u64::MAX {
                    u64::MAX as int
                } else {
                    total_size_of(stale_removed(s0.take(i as int), cutoff as int))
                },
            decreases self.entries@.len() - i,
        {
            proof {
                assert(s0.take(i + 1).drop_last() =~= s0.take(i as int));
                assert(s0.take(i + 1).last() == s0[i as int]);
                let st = stale_removed(s0.take(i as int), cutoff as int);
                lemma_total_size_nonneg(st);
                assert(st.push(s0[i as int]).drop_last() =~= st);
            }
            let e = self.entries[i].clone();
            if e.mtime < cutoff {
                let sz = e.size;
                removed.push(e);
                if sz > u64::MAX - freed {
                    freed = u64::MAX;
                } else {
                    freed = freed + sz;
                }
            } else {
                kept.push(e);
            }
            i = i + 1;
        }
        assert(s0.take(s0.len() as int) =~= s0);
        self.entries = kept;
        proof {
            Self::lemma_fresh_kept_sorted(s0, cutoff as int);
        }
        (removed, freed)
    }

    /// Entries kept by `clean_old` keep their newest-first order.
    proof fn lemma_fresh_kept_sorted(s: Seq<CacheEntry>, cutoff: int)
        requires
            sorted_newest_first(s),
        ensures
            sorted_newest_first(fresh_kept(s, cutoff)),
            forall|k: int|
                0 <= k < fresh_kept(s, cutoff).len() ==> exists|t: int|
                    0 <= t < s.len() && #[trigger] fresh_kept(s, cutoff)[k] == s[t],
        decreases s.len(),
    {
        if s.len() > 0 {
            assert(sorted_newest_first(s.drop_last())) by {
                assert(forall|i: int|
                    0 <= i < s.drop_last().len() ==> s.drop_last()[i] == #[trigger] s[i]);
            }
            Self::lemma_fresh_kept_sorted(s.drop_last(), cutoff);
            let rest = fresh_kept(s.drop_last(), cutoff);
            assert forall|k: int|
                0 <= k < fresh_kept(s, cutoff).len() implies exists|t: int|
                0 <= t < s.len() && #[trigger] fresh_kept(s, cutoff)[k] == s[t] by {
                if k < rest.len() {
                    let t = choose|t: int|
                        0 <= t < s.drop_last().len() && #[trigger] rest[k] == s.drop_last()[t];
                    assert(s.drop_last()[t] == s[t]);
                    assert(fresh_kept(s, cutoff)[k] == s[t]);
                } else {
                    assert(fresh_kept(s, cutoff)[k] == s[s.len() - 1]);
                }
            }
            if !(s.last().mtime < cutoff) {
                assert forall|a: int, b: int|
                    0 <= a < b < fresh_kept(s, cutoff).len() implies (#[trigger] fresh_kept(
                    s,
                    cutoff,
                )[a]).mtime >= (#[trigger] fresh_kept(s, cutoff)[b]).mtime by {
                    if b < rest.len() {
                    } else {
                        let t = choose|t: int|
                            0 <= t < s.drop_last().len() && #[trigger] rest[a] == s.drop_last()[t];
                        assert(s[t].mtime >= s[s.len() - 1].mtime);
                    }
                }
            }
        }
    }

    /// Drops the oldest artifacts until the total size fits `max_size`; the
    /// single newest artifact is never dropped. Returns what to delete,
    /// oldest first, and the bytes freed.
    pub fn prune_to_size(&mut self, max_size: u64) -> (r: (Vec<CacheEntry>, u64))
        requires
            old(self).wf(),
        ensures
            final(self).wf(),
            final(self).dir_view() == old(self).dir_view(),
            final(self).entries_seq() == pruned_kept(old(self).entries_seq(), max_size as int),
            r.0@ == pruned_removed(old(self).entries_seq(), max_size as int),
            r.1 == if total_size_of(pruned_removed(old(self).entries_seq(), max_size as int))
                > u64::MAX {
                u64::MAX as int
            } else {
                total_size_of(pruned_removed(old(self).entries_seq(), max_size as int))
            },
            total_size_of(final(self).entries_seq()) <= max_size || final(self).entries_seq().len() <= 1,
    {
        let ghost s0 = self.entries@;
        let mut total = self.total_size_u128();
        let mut removed: Vec<CacheEntry> = Vec::new();
        let mut freed: u64 = 0;
        while self.entries.len() > 1 && total > max_size as u128
            invariant
                self.cache_dir@ == old(self).dir_view(),
                sorted_newest_first(self.entries@),
                total == total_size_of(self.entries@),
                pruned_kept(s0, max_size as int) == pruned_kept(self.entries@, max_size as int),
                pruned_removed(s0, max_size as int) == removed@ + pruned_removed(
                    self.entries@,
                    max_size as int,
                ),
                freed == if total_size_of(removed@) > u64::MAX {
                    u64::MAX as int
                } else {
                    total_size_of(removed@)
                },
                total_size_of(removed@) + total_size_of(self.entries@) == total_size_of(s0),
            decreases self.entries@.len(),
        {
            let ghost cur = self.entries@;
            proof {
                lemma_total_size_nonneg(cur.drop_last());
                lemma_total_size_nonneg(removed@);
            }
            let e = match self.entries.pop() {
                Some(e) => e,
                None => {
                    proof {
                        assert(false);
                    }
                    return (removed, freed);
                },
            };
            proof {
                assert(self.entries@ =~= cur.drop_last());
                assert(e == cur.last());
            }
            total = total - e.size as u128;
            let sz = e.size;
            let ghost removed_old = removed@;
            removed.push(e);
            if sz > u64::MAX - freed {
                freed = u64::MAX;
            } else {
                freed = freed + sz;
            }
            proof {
                assert(pruned_kept(cur, max_size as int) == pruned_kept(
                    self.entries@,
                    max_size as int,
                ));
                assert(pruned_removed(cur, max_size as int) == seq![cur.last()] + pruned_removed(
                    self.entries@,
                    max_size as int,
                ));
                assert(removed_old + pruned_removed(cur, max_size as int) =~= removed@
                    + pruned_removed(self.entries@, max_size as int));
                let rt = removed@;
                assert(rt.drop_last() =~= removed_old);
                assert(rt.last() == cur.last());
                assert(total_size_of(rt) == total_size_of(removed_old) + cur.last().size);
                assert forall|a: int, b: int|
                    0 <= a < b < self.entries@.len() implies (
                #[trigger] self.entries@[a]).mtime >= (#[trigger] self.entries@[b]).mtime by {
                    assert(self.entries@[a] == cur[a]);
                    assert(self.entries@[b] == cur[b]);
                }
            }
        }
        proof {
            assert(pruned_kept(self.entries@, max_size as int) == self.entries@);
            assert(pruned_removed(self.entries@, max_size as int) =~= Seq::<CacheEntry>::empty());
            assert(removed@ + Seq::<CacheEntry>::empty() =~= removed@);
            lemma_total_size_nonneg(self.entries@);
        }
        (removed, freed)
    }

    /// The current total size as an exact integer.
    fn total_size_u128(&self) -> (r: u128)
        ensures
            r == total_size_of(self.entries_seq()),
    {
        let ghost s = self.entries@;
        let mut total: u128 = 0;
        let mut i: usize = 0;
        while i < self.entries.len()
            invariant
                i <= self.entries@.len(),
                self.entries@ == s,
                total == total_size_of(s.take(i as int)),
                total <= i * (u64::MAX as int),
            decreases self.entries@.len() - i,
        {
            proof {
                assert(s.take(i + 1).drop_last() =~= s.take(i as int));
                assert(s.take(i + 1).last() == s[i as int]);
                assert(total + s[i as int].size <= (i + 1) * (u64::MAX as int))
                    by (nonlinear_arith)
                    requires
                        total <= i * (u64::MAX as int),
                        s[i as int].size <= u64::MAX,
                ;
                assert((i + 1) * (u64::MAX as int) < u128::MAX) by (nonlinear_arith)
                    requires
                        i + 1 <= usize::MAX,
                ;
            }
            total = total + self.entries[i].size as u128;
            i = i + 1;
        }
        assert(s.take(s.len() as int) =~= s);
        total
    }

    /// Total size (saturating), artifact count and delta count.
    pub fn get_stats(&self) -> (stats: CacheStats)
        ensures
            stats.total_size == if total_size_of(self.entries_seq()) > u64::MAX {
                u64::MAX as int
            } else {
                total_size_of(self.entries_seq())
            },
            stats.delta_count == delta_count_of(self.entries_seq()),
            stats.package_count == self.entries_seq().len() - delta_count_of(self.entries_seq()),
            stats.cache_dir@ == self.dir_view(),
    {
        let ghost s = self.entries@;
        let mut total: u64 = 0;
        let mut deltas: usize = 0;
        let mut i: usize = 0;
        while i < self.entries.len()
            invariant
                i <= self.entries@.len(),
                self.entries@ == s,
                deltas == delta_count_of(s.take(i as int)),
                deltas <= i,
                total == if total_size_of(s.take(i as int)) > u64::MAX {
                    u64::MAX as int
                } else {
                    total_size_of(s.take(i as int))
                },
            decreases self.entries@.len() - i,
        {
            proof {
                assert(s.take(i + 1).drop_last() =~= s.take(i as int));
                assert(s.take(i + 1).last() == s[i as int]);
                lemma_total_size_nonneg(s.take(i as int));
            }
            let e = &self.entries[i];
            if str_contains(e.name.as_str(), ".delta.") {
                deltas = deltas + 1;
            }
            let sz = e.size;
            if sz > u64::MAX - total {
                total = u64::MAX;
            } else {
                total = total + sz;
            }
            i = i + 1;
        }
        assert(s.take(s.len() as int) =~= s);
        proof {
            Self::lemma_delta_count_bounds(s);
        }
        CacheStats {
            total_size: total,
            package_count: self.entries.len() - deltas,
            delta_count: deltas,
            cache_dir: self.cache_dir.clone(),
        }
    }

    proof fn lemma_delta_count_bounds(s: Seq<CacheEntry>)
        ensures
            0 <= delta_count_of(s) <= s.len(),
        decreases s.len(),
    {
        if s.len() > 0 {
            Self::lemma_delta_count_bounds(s.drop_last());
        }
    }

    /// Checks each registered artifact's compression stream against the
    /// bytes the caller read for it (aligned by index); reports the names
    /// whose streams do not open. Nothing is deleted.
    pub fn verify_integrity(&self, blobs: &Vec<Vec<u8>>) -> (r: Vec<String>)
        requires
            blobs@.len() == self.entries_seq().len(),
        ensures
            crate::types::strings_view(r@) == corrupt_names(
                self.entries_seq(),
                blobs@.map_values(|b: Vec<u8>| b@),
            ),
    {
        let ghost s = self.entries@;
        let ghost bs = blobs@.map_values(|b: Vec<u8>| b@);
        let mut r: Vec<String> = Vec::new();
        let mut i: usize = 0;
        while i < self.entries.len()
            invariant
                i <= self.entries@.len(),
                self.entries@ == s,
                bs == blobs@.map_values(|b: Vec<u8>| b@),
                bs.len() == s.len(),
                crate::types::strings_view(r@) =~~= corrupt_names(
                    s.take(i as int),
                    bs.take(i as int),
                ),
            decreases self.entries@.len() - i,
        {
            proof {
                assert(s.take(i + 1).drop_last() =~= s.take(i as int));
                assert(bs.take(i + 1).drop_last() =~= bs.take(i as int));
                assert(s.take(i + 1).last() == s[i as int]);
                assert(bs.take(i + 1).last() == bs[i as int]);
                assert(bs[i as int] == blobs@[i as int]@);
            }
            if !crate::integrity::zstd_stream_valid(blobs[i].as_slice()) {
                r.push(self.entries[i].name.clone());
            }
            assert(crate::types::strings_view(r@) =~~= corrupt_names(
                s.take(i + 1),
                bs.take(i + 1),
            ));
            i = i + 1;
        }
        assert(s.take(s.len() as int) =~= s);
        assert(bs.take(bs.len() as int) =~= bs);
        r
    }
}

/// The names of the entries whose byte streams are not valid compressed
/// frames, in cache order.
pub open spec fn corrupt_names(s: Seq<CacheEntry>, blobs: Seq<Seq<u8>>) -> Seq<Seq<char>>
    decreases s.len(),
{
    if s.len() == 0 || blobs.len() != s.len() {
        Seq::empty()
    } else {
        let rest = corrupt_names(s.drop_last(), blobs.drop_last());
        if !crate::integrity::zstd_frame_ok(blobs.last()) {
            rest.push(s.last().name@)
        } else {
            rest
        }
    }
}

} // verus!
