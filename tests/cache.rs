use thumbor::cache::{FetchError, SourceCache};

/// Looks the source up, fetching it through `fetch` only on a miss.
fn retrieve(cache: &mut SourceCache, url: &str, fetches: &mut u32) -> Result<Vec<u8>, FetchError> {
    if let Some(bytes) = cache.lookup(url) {
        return Ok(bytes);
    }
    *fetches += 1;
    let body = format!("body of {}", url).into_bytes();
    cache.complete_fetch(url, 200, body)
}

#[test]
fn hit_avoids_refetch() {
    let mut cache = SourceCache::new(4);
    let mut fetches = 0;
    let first = retrieve(&mut cache, "https://example.com/a.jpg", &mut fetches).unwrap();
    assert_eq!(fetches, 1);
    let second = retrieve(&mut cache, "https://example.com/a.jpg", &mut fetches).unwrap();
    assert_eq!(fetches, 1);
    assert_eq!(first, second);
    assert_eq!(second, b"body of https://example.com/a.jpg".to_vec());
}

#[test]
fn full_cache_evicts_least_recent() {
    let mut cache = SourceCache::new(2);
    let mut fetches = 0;
    retrieve(&mut cache, "a", &mut fetches).unwrap();
    retrieve(&mut cache, "b", &mut fetches).unwrap();
    retrieve(&mut cache, "c", &mut fetches).unwrap();
    assert_eq!(fetches, 3);
    assert!(cache.lookup("b").is_some());
    assert!(cache.lookup("c").is_some());
    assert_eq!(cache.lookup("a"), None);
    retrieve(&mut cache, "a", &mut fetches).unwrap();
    assert_eq!(fetches, 4);
    assert_eq!(cache.lookup("a"), Some(b"body of a".to_vec()));
    assert_eq!(cache.lookup("b"), None);
    assert!(cache.lookup("c").is_some());
}

#[test]
fn lookup_refreshes_recency() {
    let mut cache = SourceCache::new(2);
    let mut fetches = 0;
    retrieve(&mut cache, "a", &mut fetches).unwrap();
    retrieve(&mut cache, "b", &mut fetches).unwrap();
    retrieve(&mut cache, "a", &mut fetches).unwrap();
    assert_eq!(fetches, 2);
    retrieve(&mut cache, "c", &mut fetches).unwrap();
    assert_eq!(cache.lookup("b"), None);
    assert!(cache.lookup("a").is_some());
    assert!(cache.lookup("c").is_some());
}

#[test]
fn failed_fetch_is_not_cached() {
    let mut cache = SourceCache::new(2);
    assert_eq!(cache.lookup("x"), None);
    assert_eq!(cache.complete_fetch("x", 404, b"missing".to_vec()), Err(FetchError::BadStatus(404)));
    assert_eq!(cache.lookup("x"), None);
    assert_eq!(cache.complete_fetch("x", 302, vec![]), Err(FetchError::BadStatus(302)));
    assert_eq!(cache.complete_fetch("x", 299, vec![7]), Ok(vec![7]));
    assert_eq!(cache.lookup("x"), Some(vec![7]));
}

#[test]
fn zero_capacity_stores_nothing() {
    let mut cache = SourceCache::new(0);
    assert_eq!(cache.complete_fetch("x", 200, vec![1, 2]), Ok(vec![1, 2]));
    assert_eq!(cache.lookup("x"), None);
}

#[test]
fn key_is_stable_per_url() {
    assert_eq!(SourceCache::key("https://a/b"), SourceCache::key("https://a/b"));
    assert_ne!(SourceCache::key("https://a/b"), SourceCache::key("https://a/c"));
}
