use repo_launcher::git::RepoGitStatus;
use repo_launcher::git_status_cache::{GitStatusCache, GIT_STATUS_CACHE_TTL_MS};

/// A time-to-live of `n` seconds, in milliseconds.
fn secs(n: u64) -> u64 {
    n * 1000
}

fn sample_status(id: i64) -> RepoGitStatus {
    RepoGitStatus {
        repository_id: id,
        branch: "main".to_string(),
        dirty: false,
        ahead: 0,
        behind: 0,
    }
}

#[test]
fn returns_none_when_absent() {
    let cache = GitStatusCache::new();
    assert!(cache.get(1, "/x", secs(60)).is_none());
}

#[test]
fn returns_cached_value_within_ttl() {
    let mut cache = GitStatusCache::new();
    cache.insert(1, "/x".to_string(), sample_status(1));
    let hit = cache.get(1, "/x", secs(60));
    assert_eq!(hit.unwrap().branch, "main");
}

#[test]
fn expired_entry_returns_none() {
    let mut cache = GitStatusCache::new();
    cache.insert(1, "/x".to_string(), sample_status(1));
    assert!(cache.get(1, "/x", 0).is_none());
}

#[test]
fn different_path_is_a_cache_miss_even_for_same_repository_id() {
    let mut cache = GitStatusCache::new();
    cache.insert(1, "/x".to_string(), sample_status(1));
    assert!(cache.get(1, "/y", secs(60)).is_none());
}

#[test]
fn invalidate_removes_entry_regardless_of_cached_path() {
    let mut cache = GitStatusCache::new();
    cache.insert(1, "/x".to_string(), sample_status(1));
    cache.invalidate(1);
    assert!(cache.get(1, "/x", secs(60)).is_none());
}

#[test]
fn invalidate_does_not_affect_other_repository_ids() {
    let mut cache = GitStatusCache::new();
    cache.insert(1, "/x".to_string(), sample_status(1));
    cache.insert(2, "/y".to_string(), sample_status(2));
    cache.invalidate(1);
    assert!(cache.get(2, "/y", secs(60)).is_some());
}

#[test]
fn insert_replaces_the_entry_under_the_same_key() {
    let mut cache = GitStatusCache::new();
    cache.insert(1, "/x".to_string(), sample_status(1));
    let mut newer = sample_status(1);
    newer.branch = "develop".to_string();
    newer.dirty = true;
    cache.insert(1, "/x".to_string(), newer);
    let hit = cache.get(1, "/x", secs(60)).unwrap();
    assert_eq!(hit.branch, "develop");
    assert!(hit.dirty);
}

#[test]
fn invalidate_drops_every_path_of_the_repository() {
    let mut cache = GitStatusCache::new();
    cache.insert(1, "/x".to_string(), sample_status(1));
    cache.insert(1, "/y".to_string(), sample_status(1));
    cache.invalidate(1);
    assert!(cache.get(1, "/x", secs(60)).is_none());
    assert!(cache.get(1, "/y", secs(60)).is_none());
}

#[test]
fn cache_ttl_is_five_seconds() {
    assert_eq!(GIT_STATUS_CACHE_TTL_MS, secs(5));
}

#[test]
fn a_status_is_served_only_while_younger_than_the_ttl() {
    let mut cache = GitStatusCache::new();
    cache.insert(1, "/x".to_string(), sample_status(1));
    assert_eq!(cache.status_if_fresh(1, "/x", 4999, 5000).unwrap().branch, "main");
    assert!(cache.status_if_fresh(1, "/x", 5000, 5000).is_none());
    assert!(cache.status_if_fresh(1, "/x", 0, 0).is_none());
    assert!(cache.status_if_fresh(1, "/y", 0, 5000).is_none());
}

#[test]
fn insert_at_restamps_and_serves_the_new_status() {
    let mut cache = GitStatusCache::new();
    let earlier = std::time::Instant::now();
    cache.insert_at(1, "/x".to_string(), sample_status(1), earlier);
    let mut newer = sample_status(1);
    newer.branch = "develop".to_string();
    cache.insert_at(1, "/x".to_string(), newer, std::time::Instant::now());
    assert_eq!(cache.get(1, "/x", secs(60)).unwrap().branch, "develop");
    assert_eq!(cache.status_if_fresh(1, "/x", 0, 1).unwrap().branch, "develop");
}

#[test]
fn paths_with_the_same_components_are_one_key() {
    let mut cache = GitStatusCache::new();
    cache.insert(1, "/x/".to_string(), sample_status(1));
    assert_eq!(cache.get(1, "/x", secs(60)).unwrap().branch, "main");
    let mut newer = sample_status(1);
    newer.branch = "develop".to_string();
    cache.insert(1, "//x/.".to_string(), newer);
    assert_eq!(cache.get(1, "/x/", secs(60)).unwrap().branch, "develop");
    assert_eq!(cache.get(1, "/x", secs(60)).unwrap().branch, "develop");
    assert!(cache.get(1, "/x/y", secs(60)).is_none());
}
