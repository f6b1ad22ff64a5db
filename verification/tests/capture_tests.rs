use jotx::capture::{ClipMon, ShellMon, parse_fish_line, parse_zsh_line, should_capture_command};
use jotx::store::Store;
use jotx::types::PluginAction;

#[test]
fn test_capture_command() {
    // The tool's own invocations are never captured.
    let r = should_capture_command("ja new stuff", true, false, PluginAction::Continue);
    assert!(r.is_none());
}

#[test]
fn capture_decision_paths() {
    assert!(should_capture_command("jotx status", true, false, PluginAction::Continue).is_none());
    assert!(should_capture_command("ls", false, false, PluginAction::Continue).is_none());
    assert!(should_capture_command("ls", true, false, PluginAction::Skip).is_none());
    assert!(should_capture_command("ls", true, false, PluginAction::Stop).is_none());
    assert_eq!(
        should_capture_command("LS -La", true, false, PluginAction::Continue),
        Some(b"ls -la".to_vec())
    );
    assert_eq!(
        should_capture_command("LS -La", true, true, PluginAction::Continue),
        Some(b"LS -La".to_vec())
    );
}

#[test]
fn clipboard_poller_dedups_consecutive_texts() {
    // hello\n, hello\n, world: two rows, one per distinct text.
    let mut store = Store::new(4);
    let mut mon = ClipMon::new();
    let mut observed = 0u64;
    for text in [b"hello\n".as_slice(), b"hello\n".as_slice(), b"world".as_slice()] {
        if let Some(content) = mon.observe(text, false) {
            observed += 1;
            store.insert_clipboard(
                content,
                100 + observed,
                b"app".to_vec(),
                b"title".to_vec(),
                None,
                1000,
            );
        }
    }
    assert_eq!(store.entries.len(), 2);
    let contents: Vec<Vec<u8>> = store.entries.iter().map(|e| e.content.clone()).collect();
    assert!(contents.contains(&b"hello\n".to_vec()));
    assert!(contents.contains(&b"world".to_vec()));
}

#[test]
fn empty_clipboard_is_ignored() {
    let mut mon = ClipMon::new();
    assert!(mon.observe(b"", false).is_none());
}

#[test]
fn zsh_and_fish_history_lines() {
    assert_eq!(parse_zsh_line(b": 1234567890:0;git status"), b"git status".to_vec());
    assert_eq!(parse_zsh_line(b"plain command"), b"plain command".to_vec());
    assert_eq!(parse_fish_line(b"- cmd: cargo test"), Some(b"cargo test".to_vec()));
    assert_eq!(parse_fish_line(b"  - cmd: cargo test"), Some(b"cargo test".to_vec()));
    assert_eq!(parse_fish_line(b"  when: 123"), None);
}

#[test]
fn history_sweep_deduplicates_by_content() {
    let mut store = Store::new(4);
    let mut mon = ShellMon::new();
    mon.add_or_increment(&mut store, b"make install".to_vec(), 100, 1000);
    mon.add_or_increment(&mut store, b"make install".to_vec(), 200, 1001);
    assert_eq!(store.entries.len(), 1);
    assert_eq!(store.entries[0].times_run, 2);
}
