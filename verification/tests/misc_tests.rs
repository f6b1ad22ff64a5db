use jotx::codec::{embedding_blob_decode, embedding_blob_encode};
use jotx::llm::{ModelSize, clean_llm_response, detect_model_size};
use jotx::maintenance::should_run_maintenance;
use jotx::planner::effective_max_results;
use jotx::privacy::{CommandContext, PrivacyConfig, SensitiveCommandFilter};
use jotx::sample::{Sample, SampleSelector};
use jotx::settings::Settings;
use jotx::types::PluginAction;
use jotx::writer::DbWriter;

#[test]
fn embedding_blob_round_trips() {
    // Encoding then decoding an arbitrary vector of component bit patterns
    // is the identity; floats survive through their bit patterns.
    let floats = vec![0.25f32, -1.5, 3.1415927, 0.0, f32::MIN_POSITIVE];
    let words: Vec<u32> = floats.iter().map(|f| f.to_bits()).collect();
    let blob = embedding_blob_encode(&words);
    assert_eq!(blob.len(), 4 * words.len());
    let back = embedding_blob_decode(&blob);
    assert_eq!(back, words);
    let floats_back: Vec<f32> = back.iter().map(|w| f32::from_bits(*w)).collect();
    assert_eq!(floats, floats_back);
}

#[test]
fn blob_decode_drops_trailing_fragment() {
    let blob = vec![1u8, 0, 0, 0, 9, 9];
    assert_eq!(embedding_blob_decode(&blob), vec![1u32]);
}

#[test]
fn response_cleaning_strips_fences_and_prose() {
    let raw = b"```json\n{\"keywords\":[\"make\"]}\n``` done";
    assert_eq!(clean_llm_response(raw), b"{\"keywords\":[\"make\"]}".to_vec());
    assert_eq!(clean_llm_response(b"no braces"), b"no braces".to_vec());
    assert_eq!(clean_llm_response(b"} before {"), b"} before {".to_vec());
}

#[test]
fn model_sizes_from_names() {
    assert_eq!(detect_model_size("qwen2.5:0.5b"), ModelSize::Tiny);
    assert_eq!(detect_model_size("qwen2.5:3b"), ModelSize::Small);
    assert_eq!(detect_model_size("llama3:8B"), ModelSize::Medium);
    assert_eq!(detect_model_size("llama2:70b"), ModelSize::Large);
    assert_eq!(detect_model_size("mystery"), ModelSize::Small);
}

#[test]
fn zero_max_results_collapses_to_the_default_cap() {
    assert_eq!(effective_max_results(0), 10);
    assert_eq!(effective_max_results(5), 5);
}

#[test]
fn privacy_filter_rejects_sensitive_command() {
    // excludes_contains_string = ["password"] vetoes the capture,
    // case-insensitively.
    let privacy = PrivacyConfig {
        excludes_contains_string: vec!["password".to_string()],
        excludes_starts_with_string: vec![],
        excludes_ends_with_string: vec![],
        excludes_regex: vec![],
        exclude_folders: vec![],
    };
    let ctx = CommandContext {
        command: "export DB_PASSWORD=foo".to_string(),
        working_dir: "/home/user".to_string(),
        user: "user".to_string(),
        host: "host".to_string(),
        timestamp: 100,
    };
    let f = SensitiveCommandFilter;
    assert_eq!(f.on_command_captured(&ctx, &privacy), PluginAction::Skip);
}

#[test]
fn privacy_filter_folder_and_regex() {
    let privacy = PrivacyConfig {
        excludes_contains_string: vec![],
        excludes_starts_with_string: vec![],
        excludes_ends_with_string: vec![],
        excludes_regex: vec!["(".to_string(), "^/tmp".to_string()],
        exclude_folders: vec!["/home/user/Private/".to_string()],
    };
    let f = SensitiveCommandFilter;
    let nested = CommandContext {
        command: "ls".to_string(),
        working_dir: "/home/user/private/sub".to_string(),
        user: String::new(),
        host: String::new(),
        timestamp: 0,
    };
    assert_eq!(f.on_command_captured(&nested, &privacy), PluginAction::Skip);
    let tmp = CommandContext {
        command: "ls".to_string(),
        working_dir: "/tmp/x".to_string(),
        user: String::new(),
        host: String::new(),
        timestamp: 0,
    };
    // The malformed pattern is ignored; the valid one matches.
    assert_eq!(f.on_command_captured(&tmp, &privacy), PluginAction::Skip);
    let fine = CommandContext {
        command: "ls".to_string(),
        working_dir: "/home/user/work".to_string(),
        user: String::new(),
        host: String::new(),
        timestamp: 0,
    };
    assert_eq!(f.on_command_captured(&fine, &privacy), PluginAction::Continue);
}

#[test]
fn write_queue_backpressure() {
    let mut w = DbWriter::new();
    for i in 0..1000u64 {
        let r = w.insert_clipboard(b"x".to_vec(), i, b"a".to_vec(), b"t".to_vec());
        assert!(r.is_ok());
    }
    let refused = w.insert_clipboard(b"x".to_vec(), 1000, b"a".to_vec(), b"t".to_vec());
    assert!(refused.is_err());
    assert_eq!(w.queue_len(), 1000);
    let batch = w.drain_batch(10);
    assert_eq!(batch.len(), 10);
    assert_eq!(w.queue_len(), 990);
}

#[test]
fn maintenance_schedule() {
    assert!(should_run_maintenance(None, 5));
    assert!(!should_run_maintenance(Some(0), 604800));
    assert!(should_run_maintenance(Some(0), 604801));
}

#[test]
fn settings_toggles() {
    let mut s = Settings::default();
    assert!(s.capture_clipboard);
    assert_eq!(s.clipboard_limit, 10000);
    assert_eq!(s.shell_limit, 5000);
    s.toggle_clipboard();
    assert!(!s.capture_clipboard);
    s.toggle_shell();
    assert!(!s.capture_shell);
    s.toggle_shell_history();
    assert!(s.capture_shell_history_with_files);
    s.toggle_shell_case_sensitive();
    assert!(s.shell_case_sensitive);
    s.toggle_clipboard_case_sensitive();
    assert!(s.clipboard_case_sensitive);
    s.set_clipboard_limit(7);
    s.set_shell_limit(8);
    assert_eq!(s.clipboard_limit, 7);
    assert_eq!(s.shell_limit, 8);
}

#[test]
fn diverse_samples_reject_heavy_overlap() {
    let mk = |cmd: &str, sim: u64| Sample {
        command: cmd.as_bytes().to_vec(),
        context: Vec::new(),
        quality_milli: 1000,
        similarity_milli: sim,
    };
    let cands = vec![
        mk("git push origin main", 900),
        mk("git push origin", 850),
        mk("ls -la", 500),
    ];
    let sel = SampleSelector::new();
    let chosen = sel.select_diverse(cands, 2);
    assert_eq!(chosen.len(), 2);
    assert_eq!(chosen[0].command, b"git push origin main".to_vec());
    // 3 of 4 words shared (75% overlap): the second candidate is redundant.
    assert_eq!(chosen[1].command, b"ls -la".to_vec());
}
