use jotx::cache::FingerprintCache;
use jotx::fingerprint::QueryFingerprint;
use jotx::llm::LLMQueryParams;
use jotx::types::EntryType;

fn plan(keywords: &[&str]) -> LLMQueryParams {
    LLMQueryParams {
        keywords: keywords.iter().map(|k| k.as_bytes().to_vec()).collect(),
        entry_types: Some(EntryType::Shell),
        time_range: None,
        custom_start: None,
        custom_end: None,
        filters: None,
        use_semantic: false,
    }
}

#[test]
fn inserting_the_same_query_twice_keeps_one_record() {
    // The second admission replaces the first: one record, whose last-used
    // is the later timestamp.
    let mut cache = FingerprintCache::new();
    let fp1 = QueryFingerprint::new("git log yesterday", vec![1, 2, 3]);
    let fp2 = QueryFingerprint::new("git log yesterday", vec![1, 2, 3]);
    cache.insert(fp1, plan(&["git", "log"]), 10);
    cache.insert(fp2, plan(&["git", "log"]), 20);
    assert_eq!(cache.hot_cache.len(), 1);
    assert_eq!(cache.hot_cache[0].last_used, 20);
    assert_eq!(cache.hot_cache[0].hit_count, 1);
}

#[test]
fn lookup_hits_bump_the_record() {
    let mut cache = FingerprintCache::new();
    let fp = QueryFingerprint::new("ssh yesterday", vec![]);
    cache.insert(fp, plan(&["ssh"]), 10);
    let probe = QueryFingerprint::new("show me ssh from yesterday", vec![]);
    // Identical embeddings: the caller reports a cosine of 1.0.
    let cosines = vec![1000u64];
    let hit = cache.find_match(&probe, &cosines, 900, 42);
    let p = hit.expect("similar fingerprint should hit");
    assert_eq!(p.keywords, vec![b"ssh".to_vec()]);
    assert_eq!(cache.hot_cache[0].hit_count, 2);
    assert_eq!(cache.hot_cache[0].last_used, 42);
}

#[test]
fn dissimilar_query_misses() {
    let mut cache = FingerprintCache::new();
    let fp = QueryFingerprint::new("ssh yesterday", vec![]);
    cache.insert(fp, plan(&["ssh"]), 10);
    let probe = QueryFingerprint::new("docker build today", vec![]);
    let cosines = vec![0u64];
    assert!(cache.find_match(&probe, &cosines, 900, 42).is_none());
    assert_eq!(cache.hot_cache[0].hit_count, 1);
}

#[test]
fn update_hit_count_touches_only_the_named_query() {
    let mut cache = FingerprintCache::new();
    cache.insert(QueryFingerprint::new("one", vec![]), plan(&["one"]), 10);
    cache.insert(QueryFingerprint::new("two", vec![]), plan(&["two"]), 11);
    cache.update_hit_count(&b"two".to_vec(), 50);
    let one = cache.hot_cache.iter().find(|e| e.fingerprint.query == b"one".to_vec()).unwrap();
    let two = cache.hot_cache.iter().find(|e| e.fingerprint.query == b"two".to_vec()).unwrap();
    assert_eq!(one.hit_count, 1);
    assert_eq!(two.hit_count, 2);
    assert_eq!(two.last_used, 50);
}
