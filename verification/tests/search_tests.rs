use jotx::llm::{LLMQueryParams, SimpleTimeRange};
use jotx::planner::execute_search;
use jotx::search::{keyword_search, keyword_search_with_params, resolve_time_range, semantic_search};
use jotx::store::Store;
use jotx::types::EntryType;

fn shell_insert(store: &mut Store, cmd: &str, ts: u64, now: u64) -> u64 {
    store.insert_shell(
        cmd.as_bytes().to_vec(),
        ts,
        None,
        None,
        None,
        b"Terminal".to_vec(),
        b"unknown".to_vec(),
        None,
        now,
    )
}

fn plan(keywords: &[&str], time_range: Option<SimpleTimeRange>) -> LLMQueryParams {
    LLMQueryParams {
        keywords: keywords.iter().map(|k| k.as_bytes().to_vec()).collect(),
        entry_types: Some(EntryType::Shell),
        time_range,
        custom_start: None,
        custom_end: None,
        filters: None,
        use_semantic: false,
    }
}

#[test]
fn short_query_uses_substring_long_query_uses_prefix() {
    // "yz" (two bytes) matches inside a word; "yzz" (three bytes) goes to
    // the token-prefix index and no longer matches mid-word.
    let mut store = Store::new(4);
    shell_insert(&mut store, "xyzzy", 100, 1000);
    let r2 = keyword_search(&store, "yz", EntryType::Shell, "");
    assert_eq!(r2.len(), 1);
    let r3 = keyword_search(&store, "yzz", EntryType::Shell, "");
    assert_eq!(r3.len(), 0);
    let r4 = keyword_search(&store, "xyz", EntryType::Shell, "");
    assert_eq!(r4.len(), 1);
}

#[test]
fn single_term_search_ranks_exact_match_first() {
    let mut store = Store::new(4);
    shell_insert(&mut store, "makefile edit", 100, 1000);
    shell_insert(&mut store, "make", 101, 1001);
    let r = keyword_search(&store, "make", EntryType::Shell, "");
    assert_eq!(r.len(), 2);
    assert_eq!(r[0].content, b"make".to_vec());
}

#[test]
fn planned_search_finds_todays_make_command() {
    // Query "make used today" interpreted as {keywords: ["make"],
    // kind: shell, time_range: today}: the one matching entry of today is
    // returned first.
    let midnight = 86400 * 100;
    let now = midnight + 3600;
    let mut store = Store::new(4);
    shell_insert(&mut store, "make install", midnight + 10, now);
    shell_insert(&mut store, "cargo fetch", midnight + 20, now);
    let p = plan(&["make"], Some(SimpleTimeRange::Today));
    let r = keyword_search_with_params(&store, &p, "", now, midnight);
    assert_eq!(r.len(), 1);
    assert_eq!(r[0].content, b"make install".to_vec());
}

#[test]
fn empty_keywords_match_every_row_of_the_kind() {
    let mut store = Store::new(4);
    shell_insert(&mut store, "ls", 100, 1000);
    shell_insert(&mut store, "pwd", 101, 1001);
    let p = plan(&[], None);
    let r = keyword_search_with_params(&store, &p, "", 2000, 1000);
    assert_eq!(r.len(), 2);
}

#[test]
fn today_at_midnight_is_a_zero_width_window() {
    let t = 86400 * 200;
    let (start, end) = resolve_time_range(SimpleTimeRange::Today, None, None, t, t);
    assert_eq!(start, t);
    assert_eq!(end, t);
    let (ys, ye) = resolve_time_range(SimpleTimeRange::Yesterday, None, None, t, t);
    assert_eq!(ys, t - 86400);
    assert_eq!(ye, t);
}

#[test]
fn dense_search_thresholds_and_ranks() {
    let mut store = Store::new(2);
    store.insert_shell(
        b"close one".to_vec(),
        100,
        None,
        None,
        None,
        b"Terminal".to_vec(),
        b"unknown".to_vec(),
        Some(vec![1, 2]),
        1000,
    );
    store.insert_shell(
        b"far one".to_vec(),
        101,
        None,
        None,
        None,
        b"Terminal".to_vec(),
        b"unknown".to_vec(),
        Some(vec![3, 4]),
        1001,
    );
    store.insert_shell(
        b"no embedding".to_vec(),
        102,
        None,
        None,
        None,
        b"Terminal".to_vec(),
        b"unknown".to_vec(),
        None,
        1002,
    );
    let sims = vec![800u64, 300, 900];
    let r = semantic_search(&store, &sims, 500);
    assert_eq!(r.len(), 1);
    assert_eq!(r[0].content, b"close one".to_vec());
    assert_eq!(r[0].similarity, 800);
}

#[test]
fn semantic_plan_without_similarities_fails() {
    let store = Store::new(4);
    let mut p = plan(&["vague"], None);
    p.use_semantic = true;
    let r = execute_search(&store, &p, "", 1000, 500, None, 500);
    assert!(r.is_err());
}

#[test]
fn semantic_plan_with_similarities_runs_the_dense_path() {
    let mut store = Store::new(1);
    store.insert_clipboard(b"snippet".to_vec(), 100, b"app".to_vec(), b"t".to_vec(), Some(vec![7]), 1000);
    let mut p = plan(&[], None);
    p.use_semantic = true;
    let sims = vec![800u64];
    let r = execute_search(&store, &p, "", 1000, 500, Some(&sims), 500).unwrap();
    assert_eq!(r.len(), 1);
    assert_eq!(r[0].similarity, 800);
}

#[test]
fn dense_fallback_scans_only_the_most_recent_thousand() {
    // 1005 embedded clipboard rows: the five oldest would score highest,
    // but they lie beyond the 1000-most-recent window and never surface.
    let mut store = Store::new(1);
    let mut sims: Vec<u64> = Vec::new();
    for i in 0..1005u64 {
        store.insert_clipboard(
            format!("clip{}", i).into_bytes(),
            100 + i,
            b"app".to_vec(),
            b"t".to_vec(),
            Some(vec![1]),
            1000 + i,
        );
        sims.push(if i < 5 { 999 } else { 600 });
    }
    let r = semantic_search(&store, &sims, 500);
    assert_eq!(r.len(), 20);
    for row in &r {
        assert_eq!(row.similarity, 600);
    }
}
