//! Core data types: entries, query parameters, plans and plugin actions.
//!
//! Captured text (commands, clipboard contents, directories, host names) is
//! held as UTF-8 bytes (`Vec<u8>`); callers at the process edge convert to and
//! from `String`.
use vstd::prelude::*;

verus! {

/// The two capture streams, plus a wildcard used by query filters.
#[derive(Debug, Clone, Copy, PartialEq, Eq, Structural)]
pub enum EntryType {
    Clipboard,
    Shell,
    Any,
}

impl EntryType {
    /// The stable textual name of the entry kind.
    pub open spec fn as_str_spec(self) -> Seq<char> {
        match self {
            EntryType::Any => "any"@,
            EntryType::Clipboard => "clipboard"@,
            EntryType::Shell => "shell"@,
        }
    }

    /// Stable textual name, as stored in durable rows.
    pub fn as_str(&self) -> (r: &str)
        ensures
            r@ == self.as_str_spec(),
    {
        match self {
            EntryType::Any => "any",
            EntryType::Clipboard => "clipboard",
            EntryType::Shell => "shell",
        }
    }
}

/// A single captured record: one shell command or one clipboard content.
#[derive(Debug, Clone)]
pub struct Entry {
    pub id: u64,
    pub entry_type: EntryType,
    pub content: Vec<u8>,
    pub timestamp: u64,
    pub times_run: u64,
    pub working_dir: Option<Vec<u8>>,
    pub git_repo: Option<Vec<u8>>,
    pub git_branch: Option<Vec<u8>>,
    pub user: Option<Vec<u8>>,
    pub host: Option<Vec<u8>>,
    pub app_name: Option<Vec<u8>>,
    pub window_title: Option<Vec<u8>>,
    pub embedding: Option<Vec<u32>>,
    pub created_at: u64,
    pub updated_at: u64,
}

/// The byte view of an optional byte string, for contracts.
pub open spec fn opt_bytes(o: Option<Vec<u8>>) -> Option<Seq<u8>> {
    match o {
        Some(v) => Some(v@),
        None => None,
    }
}

/// The view of an optional embedding vector.
pub open spec fn opt_words(o: Option<Vec<u32>>) -> Option<Seq<u32>> {
    match o {
        Some(v) => Some(v@),
        None => None,
    }
}

/// The mathematical value of an [`Entry`]: every text field as a byte
/// sequence, the embedding as a word sequence.
#[verifier::ext_equal]
pub ghost struct EntryV {
    pub id: u64,
    pub entry_type: EntryType,
    pub content: Seq<u8>,
    pub timestamp: u64,
    pub times_run: u64,
    pub working_dir: Option<Seq<u8>>,
    pub git_repo: Option<Seq<u8>>,
    pub git_branch: Option<Seq<u8>>,
    pub user: Option<Seq<u8>>,
    pub host: Option<Seq<u8>>,
    pub app_name: Option<Seq<u8>>,
    pub window_title: Option<Seq<u8>>,
    pub embedding: Option<Seq<u32>>,
    pub created_at: u64,
    pub updated_at: u64,
}

impl View for Entry {
    type V = EntryV;

    open spec fn view(&self) -> EntryV {
        EntryV {
            id: self.id,
            entry_type: self.entry_type,
            content: self.content@,
            timestamp: self.timestamp,
            times_run: self.times_run,
            working_dir: opt_bytes(self.working_dir),
            git_repo: opt_bytes(self.git_repo),
            git_branch: opt_bytes(self.git_branch),
            user: opt_bytes(self.user),
            host: opt_bytes(self.host),
            app_name: opt_bytes(self.app_name),
            window_title: opt_bytes(self.window_title),
            embedding: opt_words(self.embedding),
            created_at: self.created_at,
            updated_at: self.updated_at,
        }
    }
}

/// Copy an optional byte string.
pub fn clone_opt_bytes(o: &Option<Vec<u8>>) -> (r: Option<Vec<u8>>)
    ensures
        opt_bytes(r) == opt_bytes(*o),
{
    match o {
        None => None,
        Some(v) => {
            let c = v.clone();
            proof {
                assert(c@ =~= v@);
            }
            Some(c)
        },
    }
}

/// Copy an optional embedding vector.
pub fn clone_opt_words(o: &Option<Vec<u32>>) -> (r: Option<Vec<u32>>)
    ensures
        opt_words(r) == opt_words(*o),
{
    match o {
        None => None,
        Some(v) => {
            let c = v.clone();
            proof {
                assert(c@ =~= v@);
            }
            Some(c)
        },
    }
}

/// Copy a byte string.
pub fn clone_bytes(v: &Vec<u8>) -> (r: Vec<u8>)
    ensures
        r@ == v@,
{
    let c = v.clone();
    proof {
        assert(c@ =~= v@);
    }
    c
}

impl Entry {
    /// A field-for-field copy of this entry.
    pub fn duplicate(&self) -> (r: Entry)
        ensures
            r@ == self@,
    {
        let r = Entry {
            id: self.id,
            entry_type: self.entry_type,
            content: clone_bytes(&self.content),
            timestamp: self.timestamp,
            times_run: self.times_run,
            working_dir: clone_opt_bytes(&self.working_dir),
            git_repo: clone_opt_bytes(&self.git_repo),
            git_branch: clone_opt_bytes(&self.git_branch),
            user: clone_opt_bytes(&self.user),
            host: clone_opt_bytes(&self.host),
            app_name: clone_opt_bytes(&self.app_name),
            window_title: clone_opt_bytes(&self.window_title),
            embedding: clone_opt_words(&self.embedding),
            created_at: self.created_at,
            updated_at: self.updated_at,
        };
        proof {
            assert(r@ =~= self@);
        }
        r
    }
}

/// A shell command awaiting insertion.
#[derive(Debug, Clone)]
pub struct ShellEntry {
    pub timestamp: u64,
    pub context: Option<SimplifiedWindowInfo>,
    pub content: Vec<u8>,
    pub times_run: u32,
    pub working_dir: Option<Vec<u8>>,
    pub git_repo: Option<Vec<u8>>,
    pub user: Option<Vec<u8>>,
    pub host: Option<Vec<u8>>,
}

/// A clipboard capture awaiting insertion.
#[derive(Debug, Clone)]
pub struct ClipboardEntry {
    pub timestamp: u64,
    pub context: SimplifiedWindowInfo,
    pub content: Vec<u8>,
}

/// Foreground process description from the window system.
#[derive(Debug, Clone)]
pub struct SimpleProcessInfo {
    pub process_id: u32,
    pub path: Vec<u8>,
    pub name: Vec<u8>,
    pub exec_name: Vec<u8>,
}

/// Foreground window description from the window system.
#[derive(Debug, Clone)]
pub struct SimplifiedWindowInfo {
    pub id: u32,
    pub os: Vec<u8>,
    pub title: Vec<u8>,
    pub info: SimpleProcessInfo,
}

/// Filters for a parameterized query over the entry table.
pub struct QueryParams {
    pub entry_type: Option<EntryType>,
    pub content_search: Option<Vec<u8>>,
    pub working_dir: Option<Vec<u8>>,
    pub app_name: Option<Vec<u8>>,
    pub user: Option<Vec<u8>>,
    pub host: Option<Vec<u8>>,
    pub limit: Option<usize>,
}

impl Default for QueryParams {
    /// The empty filter: matches every entry, no limit.
    fn default() -> (r: Self)
        ensures
            r.entry_type is None,
            r.content_search is None,
            r.working_dir is None,
            r.app_name is None,
            r.user is None,
            r.host is None,
            r.limit is None,
    {
        QueryParams {
            entry_type: None,
            content_search: None,
            working_dir: None,
            app_name: None,
            user: None,
            host: None,
            limit: None,
        }
    }
}

/// A scored search hit. The score is a relevance value scaled by 1000:
/// one scoring point equals 1000 here.
#[derive(Debug, Clone)]
pub struct SearchResult {
    pub id: u64,
    pub entry_type: EntryType,
    pub content: Vec<u8>,
    pub timestamp: u64,
    pub times_run: u64,
    pub working_dir: Option<Vec<u8>>,
    pub host: Option<Vec<u8>>,
    pub app_name: Option<Vec<u8>>,
    pub window_title: Option<Vec<u8>>,
    pub similarity: u64,
}

/// A directed co-occurrence edge joined with the target command.
#[derive(Debug, Clone)]
pub struct RelatedCommand {
    pub id: u64,
    pub content: Vec<u8>,
    pub strength: u64,
    pub sequence_order: u64,
    pub last_seen: u64,
}

/// What a plugin tells the hub after handling a hook.
#[derive(Debug, Clone, Copy, PartialEq, Eq, Structural)]
pub enum PluginAction {
    /// Continue to the next plugin.
    Continue,
    /// Stop processing; remaining plugins are not run.
    Stop,
    /// Data was modified; continue with the modified data.
    ModifyData,
    /// Skip this operation entirely.
    Skip,
}

/// Context handed to model-call hooks.
#[derive(Debug, Clone)]
pub struct LlmContext {
    pub provider: String,
    pub model: String,
    pub working_dir: String,
}

/// Context handed to daemon-tick hooks.
#[derive(Debug, Clone, Copy, PartialEq, Eq, Structural)]
pub struct DaemonContext {
    pub iteration: u64,
    pub uptime_secs: u64,
}

/// Whether the language-model service looks usable.
#[derive(Debug, Clone)]
pub struct OllamaStatus {
    pub installed: bool,
    pub running: bool,
    pub models: Vec<String>,
}

/// A labelled filesystem location reported to the user.
#[derive(Debug, Clone)]
pub struct PathInfo {
    pub label: String,
    pub path: String,
}

} // verus!
