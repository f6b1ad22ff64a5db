use jotx::store::Store;
use jotx::types::{EntryType, QueryParams};

fn shell_insert(store: &mut Store, cmd: &str, ts: u64, host: Option<&str>, now: u64) -> u64 {
    store.insert_shell(
        cmd.as_bytes().to_vec(),
        ts,
        None,
        None,
        host.map(|h| h.as_bytes().to_vec()),
        b"Terminal".to_vec(),
        b"unknown".to_vec(),
        None,
        now,
    )
}

#[test]
fn shell_upsert_by_content_and_host() {
    // The same command from the same host stays one row with times-run
    // counting the inserts; another host gets its own row.
    let mut store = Store::new(4);
    let id1 = shell_insert(&mut store, "git commit -m \"x\"", 100, Some("alice"), 1000);
    let id2 = shell_insert(&mut store, "git commit -m \"x\"", 200, Some("alice"), 1001);
    let id3 = shell_insert(&mut store, "git commit -m \"x\"", 300, Some("bob"), 1002);
    assert_eq!(id1, id2);
    assert_ne!(id1, id3);
    assert_eq!(store.entries.len(), 2);
    let alice = store.entries.iter().find(|e| e.host.as_deref() == Some(b"alice".as_slice())).unwrap();
    let bob = store.entries.iter().find(|e| e.host.as_deref() == Some(b"bob".as_slice())).unwrap();
    assert_eq!(alice.times_run, 2);
    assert_eq!(alice.timestamp, 200);
    assert_eq!(bob.times_run, 1);
}

#[test]
fn co_occurrence_strength_counts_observations() {
    // Alternating a, b, a, b within one session: the (a -> b) edge at
    // distance 1 has been observed twice.
    let mut store = Store::new(4);
    let ida = shell_insert(&mut store, "make build", 100, None, 1000);
    let idb = shell_insert(&mut store, "make test", 101, None, 1001);
    shell_insert(&mut store, "make build", 102, None, 1002);
    shell_insert(&mut store, "make test", 103, None, 1003);
    let edge = store
        .edges
        .iter()
        .find(|e| e.command_a_id == ida && e.command_b_id == idb && e.sequence_order == 1)
        .unwrap();
    assert_eq!(edge.strength, 2);
    // Distance-2 self edges were seen once each.
    let self_edge = store
        .edges
        .iter()
        .find(|e| e.command_a_id == ida && e.command_b_id == ida && e.sequence_order == 2)
        .unwrap();
    assert_eq!(self_edge.strength, 1);
    assert_eq!(store.sessions.len(), 4);
}

#[test]
fn session_minted_after_timeout() {
    let mut store = Store::new(4);
    shell_insert(&mut store, "ls", 100, None, 1000);
    shell_insert(&mut store, "pwd", 101, None, 1100);
    // 400 s later: outside the 300 s window, a fresh session starts.
    shell_insert(&mut store, "whoami", 102, None, 1500);
    assert_eq!(store.sessions[0].session_id, store.sessions[1].session_id);
    assert_ne!(store.sessions[1].session_id, store.sessions[2].session_id);
    assert_eq!(store.sessions[2].position, 0);
}

#[test]
fn retention_keeps_most_recent_and_is_idempotent() {
    let mut store = Store::new(4);
    for i in 0..5u64 {
        shell_insert(&mut store, &format!("cmd{}", i), 100 + i, None, 1000 + i);
    }
    store.insert_clipboard(b"clip".to_vec(), 50, b"app".to_vec(), b"title".to_vec(), None, 2000);
    store.cleanup_old_entries(10, 3);
    let contents: Vec<Vec<u8>> = store.entries.iter().map(|e| e.content.clone()).collect();
    assert_eq!(contents.len(), 4);
    assert!(contents.contains(&b"cmd2".to_vec()));
    assert!(contents.contains(&b"cmd3".to_vec()));
    assert!(contents.contains(&b"cmd4".to_vec()));
    assert!(contents.contains(&b"clip".to_vec()));
    assert!(!contents.contains(&b"cmd0".to_vec()));
    // Applying the same caps again changes nothing.
    store.cleanup_old_entries(10, 3);
    let again: Vec<Vec<u8>> = store.entries.iter().map(|e| e.content.clone()).collect();
    assert_eq!(contents, again);
}

#[test]
fn weak_edges_and_old_sessions_pruned() {
    let mut store = Store::new(4);
    shell_insert(&mut store, "one", 100, None, 1000);
    shell_insert(&mut store, "two", 101, None, 1001);
    assert_eq!(store.edges.len(), 1);
    // Far in the future the once-seen edge and the old rows are pruned.
    let later = 1001 + 91 * 86400;
    let (edges_gone, sessions_gone) = store.run_maintenance(later);
    assert_eq!(edges_gone, 1);
    assert_eq!(sessions_gone, 2);
    assert_eq!(store.edges.len(), 0);
    assert_eq!(store.sessions.len(), 0);
}

#[test]
fn query_entries_filters_and_orders() {
    let mut store = Store::new(4);
    shell_insert(&mut store, "alpha one", 100, None, 1000);
    shell_insert(&mut store, "beta two", 300, None, 1001);
    shell_insert(&mut store, "alpha three", 200, None, 1002);
    let mut params = QueryParams::default();
    params.entry_type = Some(EntryType::Shell);
    params.content_search = Some(b"alpha".to_vec());
    let rows = store.query_entries(&params);
    assert_eq!(rows.len(), 2);
    // Most recent first.
    assert_eq!(rows[0].content, b"alpha three".to_vec());
    assert_eq!(rows[1].content, b"alpha one".to_vec());
}

#[test]
fn increment_bumps_times_run_only() {
    let mut store = Store::new(4);
    let id = shell_insert(&mut store, "cargo build", 100, None, 1000);
    let found = store.increment_shell_command(id, 2000);
    assert!(found);
    assert_eq!(store.entries[0].times_run, 2);
    assert_eq!(store.entries[0].timestamp, 100);
    assert_eq!(store.entries[0].updated_at, 2000);
    assert!(!store.increment_shell_command(9999, 2001));
}

#[test]
fn embedded_vectors_share_the_store_dimension() {
    let mut store = Store::new(3);
    store.insert_shell(
        b"du -sh".to_vec(),
        100,
        None,
        None,
        None,
        b"Terminal".to_vec(),
        b"unknown".to_vec(),
        Some(vec![1, 2, 3]),
        1000,
    );
    for e in store.entries.iter() {
        if let Some(v) = &e.embedding {
            assert_eq!(v.len(), 3);
        }
    }
}
