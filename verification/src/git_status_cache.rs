//! In-memory cache of per-repository git status, so that a status check shortly after the
//! last one does not spawn `git` again. Entries are keyed by repository id and path, two
//! path texts being one key when they have the same components (`/x` and `/x/` are one
//! path); an entry older than the caller's time-to-live counts as absent.

use vstd::prelude::*;
use crate::git::RepoGitStatus;
use crate::paths::{components_of, path_components, same_components};

verus! {

/// How long a cached status is served, in milliseconds.
pub const GIT_STATUS_CACHE_TTL_MS: u64 = 5000;

#[verifier::external_type_specification]
#[verifier::external_body]
pub struct ExInstant(std::time::Instant);

/// `Instant::now`. Nothing is stated of the instant, which depends on the clock.
#[verifier::external_body]
fn instant_now() -> std::time::Instant {
    std::time::Instant::now()
}

/// `Instant::elapsed`: the time since `t`. Nothing is stated of it; it depends on the
/// clock.
#[verifier::external_body]
fn elapsed_since(t: &std::time::Instant) -> std::time::Duration {
    t.elapsed()
}

/// `Duration::as_millis`: the whole milliseconds of `d`. Nothing is stated of it: a
/// `Duration` is opaque here, so there is nothing to state it over.
#[verifier::external_body]
fn whole_millis(d: &std::time::Duration) -> u128 {
    d.as_millis()
}

/// One cached status.
pub struct CacheEntry {
    pub repository_id: i64,
    pub path: String,
    pub inserted_at: std::time::Instant,
    pub status: RepoGitStatus,
}

/// Git statuses cached by repository id and path.
pub struct GitStatusCache {
    entries: Vec<CacheEntry>,
}

/// The key an entry is cached under, besides its repository id: the components of its path.
pub open spec fn key_of(e: CacheEntry) -> Seq<Seq<char>> {
    path_components(e.path@)
}

/// The entry cached under `(id, path)` among `entries`, if any; `path` is a path's
/// components.
pub open spec fn entry_in(entries: Seq<CacheEntry>, id: i64, path: Seq<Seq<char>>) -> Option<CacheEntry> {
    if exists|k: int|
        0 <= k < entries.len() && entries[k].repository_id == id && key_of(entries[k]) == path {
        Some(
            entries[choose|k: int|
                0 <= k < entries.len() && entries[k].repository_id == id && key_of(entries[k])
                    == path],
        )
    } else {
        None
    }
}

/// The status cached under `(id, path)` among `entries`, if any.
pub open spec fn cached_in(entries: Seq<CacheEntry>, id: i64, path: Seq<Seq<char>>) -> Option<
    RepoGitStatus,
> {
    match entry_in(entries, id, path) {
        Some(e) => Some(e.status),
        None => None,
    }
}

/// When the entry under `(id, path)` among `entries` was cached, if there is one.
pub open spec fn stamped_in(entries: Seq<CacheEntry>, id: i64, path: Seq<Seq<char>>) -> Option<
    std::time::Instant,
> {
    match entry_in(entries, id, path) {
        Some(e) => Some(e.inserted_at),
        None => None,
    }
}

/// What a lookup answers for a cached status `cached` that is `age_ms` old, with a
/// time-to-live of `ttl_ms`: the status while it is younger than the time-to-live,
/// otherwise nothing.
pub open spec fn fresh_answer(cached: Option<RepoGitStatus>, age_ms: int, ttl_ms: int) -> Option<
    RepoGitStatus,
> {
    match cached {
        Some(s) => if age_ms < ttl_ms {
            Some(s)
        } else {
            None
        },
        None => None,
    }
}

/// No key occurs twice: no two entries of one repository have paths with the same
/// components.
pub open spec fn keys_distinct(entries: Seq<CacheEntry>) -> bool {
    forall|a: int, b: int|
        0 <= a < entries.len() && 0 <= b < entries.len() && a != b ==> !(entries[a].repository_id
            == entries[b].repository_id && key_of(entries[a]) == key_of(entries[b]))
}

proof fn lemma_cached_at(entries: Seq<CacheEntry>, k: int)
    requires
        keys_distinct(entries),
        0 <= k < entries.len(),
    ensures
        entry_in(entries, entries[k].repository_id, key_of(entries[k])) == Some(entries[k]),
{
    let id = entries[k].repository_id;
    let path = key_of(entries[k]);
    let c = choose|c: int|
        0 <= c < entries.len() && entries[c].repository_id == id && key_of(entries[c]) == path;
    assert(c == k);
}

impl GitStatusCache {
    /// The status cached under `(id, path)`, whatever its age; any path text with the same
    /// components finds it.
    pub closed spec fn cached(&self, id: i64, path: Seq<char>) -> Option<RepoGitStatus> {
        cached_in(self.entries@, id, path_components(path))
    }

    /// The instant at which the status under `(id, path)` was cached, if one is.
    pub closed spec fn stamp(&self, id: i64, path: Seq<char>) -> Option<std::time::Instant> {
        stamped_in(self.entries@, id, path_components(path))
    }

    pub closed spec fn well_formed(&self) -> bool {
        keys_distinct(self.entries@)
    }

    /// An empty cache.
    pub fn new() -> (r: Self)
        ensures
            r.well_formed(),
            forall|id: i64, path: Seq<char>| r.cached(id, path) is None && r.stamp(id, path) is None,
    {
        GitStatusCache { entries: Vec::new() }
    }

    fn position(&self, id: i64, path: &str) -> (r: Option<usize>)
        requires
            self.well_formed(),
        ensures
            match r {
                Some(k) => k < self.entries@.len() && self.entries@[k as int].repository_id == id
                    && key_of(self.entries@[k as int]) == path_components(path@) && entry_in(self.entries@, id, path_components(path@)) == Some(
                    self.entries@[k as int],
                ),
                None => entry_in(self.entries@, id, path_components(path@)) is None,
            },
    {
        let wanted = components_of(path);
        let mut k: usize = 0;
        while k < self.entries.len()
            invariant
                0 <= k <= self.entries@.len(),
                keys_distinct(self.entries@),
                crate::paths::char_views(wanted@) == path_components(path@),
                forall|q: int|
                    0 <= q < k ==> !(self.entries@[q].repository_id == id && key_of(self.entries@[q])
                        == path_components(path@)),
            decreases self.entries.len() - k,
        {
            if self.entries[k].repository_id == id && same_components(
                &components_of(self.entries[k].path.as_str()),
                &wanted,
            ) {
                proof {
                    lemma_cached_at(self.entries@, k as int);
                }
                return Some(k);
            }
            k += 1;
        }
        None
    }

    /// The status cached under `(repository_id, canonical_path)` when it was cached less than
    /// `ttl_ms` milliseconds ago; `None` when nothing is cached under that key or the entry
    /// is too old. How old the entry is comes from the clock, so the result is what
    /// `status_if_fresh` gives for some age: never a status with a time-to-live of zero.
    pub fn get(&self, repository_id: i64, canonical_path: &str, ttl_ms: u64) -> (r: Option<
        RepoGitStatus,
    >)
        requires
            self.well_formed(),
        ensures
            exists|age_ms: u128|
                r == #[trigger] fresh_answer(
                    self.cached(repository_id, canonical_path@),
                    age_ms as int,
                    ttl_ms as int,
                ),
            ttl_ms == 0 ==> r is None,
            self.cached(repository_id, canonical_path@) is None ==> r is None,
    {
        match self.position(repository_id, canonical_path) {
            None => {
                assert(fresh_answer(self.cached(repository_id, canonical_path@), 0u128 as int, ttl_ms as int) is None);
                None
            },
            Some(k) => {
                let age = elapsed_since(&self.entries[k].inserted_at);
                let age_ms = whole_millis(&age);
                let r = self.entry_status_if_fresh(k, age_ms, ttl_ms);
                assert(fresh_answer(self.cached(repository_id, canonical_path@), age_ms as int, ttl_ms as int) == r);
                r
            },
        }
    }

    /// The status cached under `(repository_id, canonical_path)` if it is `age_ms`
    /// milliseconds old and that is less than `ttl_ms`; otherwise `None`.
    pub fn status_if_fresh(
        &self,
        repository_id: i64,
        canonical_path: &str,
        age_ms: u128,
        ttl_ms: u64,
    ) -> (r: Option<RepoGitStatus>)
        requires
            self.well_formed(),
        ensures
            r == fresh_answer(self.cached(repository_id, canonical_path@), age_ms as int, ttl_ms as int),
    {
        match self.position(repository_id, canonical_path) {
            None => None,
            Some(k) => self.entry_status_if_fresh(k, age_ms, ttl_ms),
        }
    }

    /// The status of entry `k` when `age_ms` is less than `ttl_ms`, otherwise `None`.
    fn entry_status_if_fresh(&self, k: usize, age_ms: u128, ttl_ms: u64) -> (r: Option<RepoGitStatus>)
        requires
            k < self.entries@.len(),
        ensures
            age_ms < ttl_ms ==> r == Some(self.entries@[k as int].status),
            age_ms >= ttl_ms ==> r is None,
    {
        if age_ms < ttl_ms as u128 {
            Some(self.entries[k].status.copy())
        } else {
            None
        }
    }

    /// Caches `status` under `(repository_id, canonical_path)`, stamped now, replacing what was
    /// cached under that key: the status is served for the next time-to-live.
    pub fn insert(&mut self, repository_id: i64, canonical_path: String, status: RepoGitStatus)
        requires
            old(self).well_formed(),
        ensures
            final(self).well_formed(),
            final(self).cached(repository_id, canonical_path@) == Some(status),
            final(self).stamp(repository_id, canonical_path@) is Some,
            forall|id: i64, path: Seq<char>|
                !(id == repository_id && path_components(path) == path_components(canonical_path@))
                    ==> final(self).cached(id, path)
                    == old(self).cached(id, path) && final(self).stamp(id, path) == old(self).stamp(
                    id,
                    path,
                ),
    {
        let now = instant_now();
        self.insert_at(repository_id, canonical_path, status, now);
    }

    /// Caches `status` under `(repository_id, canonical_path)` stamped with `now`, replacing
    /// what was cached under that key, status and stamp; every other key keeps its status and
    /// its stamp.
    pub fn insert_at(
        &mut self,
        repository_id: i64,
        canonical_path: String,
        status: RepoGitStatus,
        now: std::time::Instant,
    )
        requires
            old(self).well_formed(),
        ensures
            final(self).well_formed(),
            final(self).cached(repository_id, canonical_path@) == Some(status),
            final(self).stamp(repository_id, canonical_path@) == Some(now),
            forall|id: i64, path: Seq<char>|
                !(id == repository_id && path_components(path) == path_components(canonical_path@))
                    ==> final(self).cached(id, path)
                    == old(self).cached(id, path) && final(self).stamp(id, path) == old(self).stamp(
                    id,
                    path,
                ),
    {
        let ghost old_entries = self.entries@;
        let ghost key_path = path_components(canonical_path@);
        let ghost st = status;
        let pos = self.position(repository_id, canonical_path.as_str());
        let entry = CacheEntry { repository_id, path: canonical_path, inserted_at: now, status };
        match pos {
            Some(k) => {
                self.entries.set(k, entry);
                proof {
                    let ne = self.entries@;
                    assert(keys_distinct(ne));
                    lemma_cached_at(ne, k as int);
                    assert forall|id: i64, path: Seq<Seq<char>>|
                        !(id == repository_id && path == key_path) implies entry_in(ne, id, path)
                        == entry_in(old_entries, id, path) by {
                        if exists|q: int|
                            0 <= q < old_entries.len() && old_entries[q].repository_id == id
                                && key_of(old_entries[q]) == path {
                            let q = choose|q: int|
                                0 <= q < old_entries.len() && old_entries[q].repository_id == id
                                    && key_of(old_entries[q]) == path;
                            lemma_cached_at(old_entries, q);
                            lemma_cached_at(ne, q);
                        } else {
                            assert(!exists|q: int|
                                0 <= q < ne.len() && ne[q].repository_id == id && key_of(ne[q])
                                    == path);
                        }
                    }
                }
            },
            None => {
                self.entries.push(entry);
                proof {
                    let ne = self.entries@;
                    assert forall|q: int| 0 <= q < old_entries.len() implies !(
                    old_entries[q].repository_id == repository_id && key_of(old_entries[q])
                        == key_path) by {
                        if old_entries[q].repository_id == repository_id && key_of(old_entries[q])
                            == key_path {
                            assert(cached_in(old_entries, repository_id, key_path) is Some);
                        }
                    }
                    assert(keys_distinct(ne));
                    lemma_cached_at(ne, old_entries.len() as int);
                    assert forall|id: i64, path: Seq<Seq<char>>|
                        !(id == repository_id && path == key_path) implies entry_in(ne, id, path)
                        == entry_in(old_entries, id, path) by {
                        if exists|q: int|
                            0 <= q < old_entries.len() && old_entries[q].repository_id == id
                                && key_of(old_entries[q]) == path {
                            let q = choose|q: int|
                                0 <= q < old_entries.len() && old_entries[q].repository_id == id
                                    && key_of(old_entries[q]) == path;
                            lemma_cached_at(old_entries, q);
                            lemma_cached_at(ne, q);
                        } else {
                            assert(!exists|q: int|
                                0 <= q < ne.len() && ne[q].repository_id == id && key_of(ne[q])
                                    == path);
                        }
                    }
                }
            },
        }
    }

    /// Drops every entry cached for `repository_id`, whatever path it was cached under.
    pub fn invalidate(&mut self, repository_id: i64)
        requires
            old(self).well_formed(),
        ensures
            final(self).well_formed(),
            forall|path: Seq<char>| final(self).cached(repository_id, path) is None,
            forall|path: Seq<char>| final(self).stamp(repository_id, path) is None,
            forall|id: i64, path: Seq<char>|
                id != repository_id ==> final(self).cached(id, path) == old(self).cached(id, path)
                    && final(self).stamp(id, path) == old(self).stamp(id, path),
    {
        let ghost old_entries = self.entries@;
        let mut kept: Vec<CacheEntry> = Vec::new();
        let ghost mut from: Seq<int> = Seq::empty();
        let mut rest: Vec<CacheEntry> = Vec::new();
        std::mem::swap(&mut rest, &mut self.entries);
        let ghost mut consumed: int = 0;
        proof {
            assert(rest@ == old_entries);
            assert(rest@ =~= old_entries.subrange(0, old_entries.len() as int));
        }
        while rest.len() > 0
            invariant
                0 <= consumed <= old_entries.len(),
                rest@ == old_entries.subrange(consumed, old_entries.len() as int),
                keys_distinct(old_entries),
                from.len() == kept@.len(),
                forall|i: int|
                    0 <= i < from.len() ==> 0 <= #[trigger] from[i] < consumed && kept@[i]
                        == old_entries[from[i]],
                forall|i: int, j: int| 0 <= i < j < from.len() ==> from[i] < from[j],
                forall|i: int| 0 <= i < kept@.len() ==> kept@[i].repository_id != repository_id,
                forall|q: int|
                    0 <= q < consumed && old_entries[q].repository_id != repository_id ==> exists|
                        i: int,
                    | 0 <= i < from.len() && from[i] == q,
            decreases rest.len(),
        {
            let e = rest.remove(0);
            proof {
                assert(e == old_entries[consumed]);
                assert(rest@ =~= old_entries.subrange(consumed + 1, old_entries.len() as int));
            }
            let ghost from_before = from;
            let keep = e.repository_id != repository_id;
            if keep {
                kept.push(e);
                proof {
                    from = from.push(consumed);
                }
            }
            proof {
                assert forall|q: int|
                    0 <= q < consumed + 1 && old_entries[q].repository_id
                        != repository_id implies exists|i: int|
                    0 <= i < from.len() && from[i] == q by {
                    if q < consumed {
                        let i = choose|i: int| 0 <= i < from_before.len() && from_before[i] == q;
                        assert(from[i] == q);
                    } else {
                        assert(from[from.len() - 1] == q);
                    }
                }
                consumed = consumed + 1;
            }
        }
        self.entries = kept;
        proof {
            let ne = self.entries@;
            assert(keys_distinct(ne)) by {
                assert forall|a: int, b: int|
                    0 <= a < ne.len() && 0 <= b < ne.len() && a != b implies !(ne[a].repository_id
                    == ne[b].repository_id && key_of(ne[a]) == key_of(ne[b])) by {
                    assert(from[a] != from[b]) by {
                        if a < b {
                            assert(from[a] < from[b]);
                        } else {
                            assert(from[b] < from[a]);
                        }
                    }
                    assert(ne[a] == old_entries[from[a]]);
                    assert(ne[b] == old_entries[from[b]]);
                }
            }
            assert forall|path: Seq<Seq<char>>| cached_in(ne, repository_id, path) is None by {
                assert(!exists|q: int|
                    0 <= q < ne.len() && ne[q].repository_id == repository_id && key_of(ne[q])
                        == path);
            }
            assert forall|id: i64, path: Seq<Seq<char>>| id != repository_id implies entry_in(
                ne,
                id,
                path,
            ) == entry_in(old_entries, id, path) by {
                if exists|q: int|
                    0 <= q < old_entries.len() && old_entries[q].repository_id == id
                        && key_of(old_entries[q]) == path {
                    let q = choose|q: int|
                        0 <= q < old_entries.len() && old_entries[q].repository_id == id
                            && key_of(old_entries[q]) == path;
                    lemma_cached_at(old_entries, q);
                    let i = choose|i: int| 0 <= i < from.len() && from[i] == q;
                    assert(ne[i] == old_entries[q]);
                    lemma_cached_at(ne, i);
                } else {
                    assert forall|i: int| 0 <= i < ne.len() implies !(ne[i].repository_id == id
                        && key_of(ne[i]) == path) by {
                        assert(ne[i] == old_entries[from[i]]);
                    }
                }
            }
        }
    }
}

/// A cached status is served while it is younger than the time-to-live and never once it is
/// as old: a lookup within the time-to-live of an insert needs no new git run.
pub proof fn law_cached_status_served_within_ttl(
    c: GitStatusCache,
    id: i64,
    path: Seq<char>,
    age_ms: int,
    ttl_ms: int,
)
    requires
        c.cached(id, path) is Some,
    ensures
        age_ms < ttl_ms ==> fresh_answer(c.cached(id, path), age_ms, ttl_ms) == c.cached(id, path),
        age_ms >= ttl_ms ==> fresh_answer(c.cached(id, path), age_ms, ttl_ms) is None,
{
}

/// Path texts with the same components are one key: `/x` and `/x/` find the same status
/// and the same stamp.
pub proof fn law_same_components_same_key(c: GitStatusCache, id: i64, a: Seq<char>, b: Seq<char>)
    requires
        path_components(a) == path_components(b),
    ensures
        c.cached(id, a) == c.cached(id, b),
        c.stamp(id, a) == c.stamp(id, b),
{
}

} // verus!
