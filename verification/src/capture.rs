//! The capture layer: the clipboard poller's deduplication, the shell
//! intake with its history-file line formats, and the decision whether a
//! pushed command is captured at all.
use vstd::prelude::*;

use vstd::string::{StrSliceExecFns, StringSliceAdditionalSpecFns};

use crate::store::{Store, bump_count, session_step, shell_find};
use crate::text::{
    is_prefix_of, is_space, lower_bytes, lower_bytes_spec, starts_with_bytes, str_bytes,
};
use crate::types::{EntryType, EntryV, PluginAction, ShellEntry, opt_bytes, opt_words};

verus! {

/// The clipboard poller's view of the last captured text.
pub struct ClipMon {
    pub last_clip: Vec<u8>,
}

/// What one poll of the clipboard should store: the (possibly lower-cased)
/// text when it is non-empty and differs from the last captured text,
/// nothing otherwise.
pub open spec fn clip_observe_spec(last: Seq<u8>, current: Seq<u8>, case_sensitive: bool) -> Option<
    Seq<u8>,
> {
    let c = if case_sensitive {
        current
    } else {
        lower_bytes_spec(current)
    };
    if c.len() > 0 && c != last {
        Some(c)
    } else {
        None
    }
}

impl ClipMon {
    /// A fresh poller that has captured nothing.
    pub fn new() -> (r: ClipMon)
        ensures
            r.last_clip@.len() == 0,
    {
        ClipMon { last_clip: Vec::new() }
    }

    /// Observe the current clipboard text: hand back what should be stored
    /// (see [`clip_observe_spec`]) and remember it; consecutive identical
    /// non-empty texts yield nothing.
    pub fn observe(&mut self, current: &[u8], case_sensitive: bool) -> (r: Option<Vec<u8>>)
        ensures
            match r {
                Some(c) => clip_observe_spec(old(self).last_clip@, current@, case_sensitive)
                    == Some(c@) && final(self).last_clip@ == c@,
                None => clip_observe_spec(old(self).last_clip@, current@, case_sensitive) is None
                    && final(self).last_clip@ == old(self).last_clip@,
            },
    {
        let c = if case_sensitive {
            crate::text::slice_range_vec(current, 0, current.len())
        } else {
            lower_bytes(current)
        };
        proof {
            if case_sensitive {
                assert(c@ =~= current@);
            }
        }
        if c.len() > 0 && !crate::text::eq_bytes(c.as_slice(), self.last_clip.as_slice()) {
            let stored = crate::types::clone_bytes(&c);
            self.last_clip = c;
            Some(stored)
        } else {
            None
        }
    }
}

/// The command part of a zsh history line (`: ts:dur;cmd`): everything
/// after the first `;`, or the whole line when none is present.
pub open spec fn zsh_command_of(line: Seq<u8>) -> Seq<u8> {
    if exists|i: int| 0 <= i < line.len() && line[i] == 59 {
        let p = choose|i: int|
            0 <= i < line.len() && line[i] == 59 && forall|j: int| 0 <= j < i ==> line[j] != 59;
        line.subrange(p + 1, line.len() as int)
    } else {
        line
    }
}

/// Extract the command from a zsh history line.
pub fn parse_zsh_line(line: &[u8]) -> (r: Vec<u8>)
    ensures
        r@ == zsh_command_of(line@),
{
    let mut i: usize = 0;
    while i < line.len()
        invariant
            i <= line@.len(),
            forall|j: int| 0 <= j < i ==> line@[j] != 59,
        decreases line@.len() - i,
    {
        if line[i] == 59 {
            proof {
                let p = choose|k: int|
                    0 <= k < line@.len() && line@[k] == 59 && forall|j: int|
                        0 <= j < k ==> line@[j] != 59;
                assert(p == i as int) by {
                    if p < i {
                        assert(line@[p] != 59);
                    }
                    if p > i {
                        assert(line@[i as int] != 59);
                    }
                }
            }
            return crate::text::slice_range_vec(line, i + 1, line.len());
        }
        i = i + 1;
    }
    let r = crate::text::slice_range_vec(line, 0, line.len());
    proof {
        assert(r@ =~= line@);
    }
    r
}

/// Leading and trailing ASCII whitespace stripped.
pub open spec fn trim_spaces(s: Seq<u8>) -> Seq<u8>
    decreases s.len(),
{
    if s.len() > 0 && is_space(s[0]) {
        trim_spaces(s.skip(1))
    } else if s.len() > 0 && is_space(s.last()) {
        trim_spaces(s.drop_last())
    } else {
        s
    }
}

/// Strip leading and trailing ASCII whitespace.
pub fn trim_spaces_exec(s: &[u8]) -> (r: Vec<u8>)
    ensures
        r@ == trim_spaces(s@),
    decreases s@.len(),
{
    if s.len() > 0 && crate::text::is_space_byte(s[0]) {
        let rest = crate::text::slice_range_vec(s, 1, s.len());
        proof {
            assert(rest@ =~= s@.skip(1));
        }
        return trim_spaces_exec(rest.as_slice());
    }
    if s.len() > 0 && crate::text::is_space_byte(s[s.len() - 1]) {
        let rest = crate::text::slice_range_vec(s, 0, s.len() - 1);
        proof {
            assert(rest@ =~= s@.drop_last());
        }
        return trim_spaces_exec(rest.as_slice());
    }
    let r = crate::text::slice_range_vec(s, 0, s.len());
    proof {
        assert(r@ =~= s@);
    }
    r
}

/// The command of a fish history line: the text after `- cmd: ` when the
/// trimmed line starts with that marker, nothing otherwise.
pub open spec fn fish_command_of(line: Seq<u8>) -> Option<Seq<u8>> {
    let t = trim_spaces(line);
    if is_prefix_of(str_bytes("- cmd: "@), t) {
        Some(t.skip(str_bytes("- cmd: "@).len() as int))
    } else {
        None
    }
}

/// Extract the command from a fish history line, if it holds one.
pub fn parse_fish_line(line: &[u8]) -> (r: Option<Vec<u8>>)
    ensures
        match r {
            Some(c) => fish_command_of(line@) == Some(c@),
            None => fish_command_of(line@) is None,
        },
{
    let t = trim_spaces_exec(line);
    let marker = "- cmd: ".as_bytes();
    if starts_with_bytes(t.as_slice(), marker) {
        let r = crate::text::slice_range_vec(t.as_slice(), marker.len(), t.len());
        proof {
            assert(r@ =~= trim_spaces(line@).skip(str_bytes("- cmd: "@).len() as int));
        }
        Some(r)
    } else {
        None
    }
}

/// The shell intake: deduplicating writer of shell commands into the store.
pub struct ShellMon {}

impl ShellMon {
    /// A fresh intake.
    pub fn new() -> (r: ShellMon) {
        ShellMon {  }
    }

    /// Record a command from a history sweep: a command already stored (as a
    /// shell entry with this content, any host) has its times-run bumped and
    /// its updated-at refreshed; a new command is inserted with no context.
    pub fn add_or_increment(&mut self, store: &mut Store, cmd: Vec<u8>, timestamp: u64, now: u64)
        requires
            old(store).wf(),
            old(store).next_id < u64::MAX,
        ensures
            final(store).wf(),
            final(store).dim == old(store).dim,
            if exists|i: int|
                0 <= i < old(store).entries_view().len() && (
                #[trigger] old(store).entries_view()[i]).entry_type == EntryType::Shell && old(store).entries_view()[i].content == cmd@ {
                // an existing command was reinforced: one row bumped, nothing added
                &&& final(store).entries_view().len() == old(store).entries_view().len()
                &&& final(store).sessions == old(store).sessions
                &&& final(store).edges == old(store).edges
                &&& exists|i: int|
                    0 <= i < old(store).entries_view().len() && (
                    #[trigger] old(store).entries_view()[i]).content == cmd@ && final(store).entries_view() == old(store).entries_view().update(
                        i,
                        EntryV {
                            times_run: bump_count(old(store).entries_view()[i].times_run),
                            updated_at: now,
                            ..old(store).entries_view()[i]
                        },
                    )
            } else {
                // a new command: inserted as a fresh shell row without context
                &&& final(store).entries_view() == old(store).entries_view().push(
                    EntryV {
                        id: old(store).next_id,
                        entry_type: EntryType::Shell,
                        content: cmd@,
                        timestamp,
                        times_run: 1,
                        working_dir: None,
                        git_repo: None,
                        git_branch: None,
                        user: None,
                        host: None,
                        app_name: Some(str_bytes("Terminal"@)),
                        window_title: Some(str_bytes("unknown"@)),
                        embedding: None,
                        created_at: now,
                        updated_at: now,
                    },
                )
                &&& session_step(old(store).sessions@, final(store).sessions@, old(store).next_id, now)
            },
    {
        let found = store.get_shell_command_id(&cmd);
        match found {
            Some(id) => {
                let was = store.increment_shell_command(id, now);
                proof {
                    assert(was);
                }
            },
            None => {
                proof {
                    crate::store::lemma_shell_find(store.entries_view(), cmd@, None);
                    match shell_find(store.entries_view(), cmd@, None) {
                        Some(i) => {
                            assert((store.entries_view()[i]).entry_type == EntryType::Shell
                                && store.entries_view()[i].content == cmd@);
                            assert(false);
                        },
                        None => {},
                    }
                }
                let app = "Terminal".as_bytes_vec();
                let title = "unknown".as_bytes_vec();
                store.insert_shell(cmd, timestamp, None, None, None, app, title, None, now);
            },
        }
    }

    /// Record a pushed command with its context: always inserted through the
    /// store's (content, host) upsert.
    pub fn add_command(
        &mut self,
        store: &mut Store,
        cmd: Vec<u8>,
        timestamp: u64,
        pwd: Option<Vec<u8>>,
        user: Option<Vec<u8>>,
        host: Option<Vec<u8>>,
        now: u64,
    ) -> (id: u64)
        requires
            old(store).wf(),
            old(store).next_id < u64::MAX,
        ensures
            final(store).wf(),
            final(store).dim == old(store).dim,
            match shell_find(old(store).entries_view(), cmd@, opt_bytes(host)) {
                Some(i) => final(store).entries_view() == old(store).entries_view().update(
                    i,
                    crate::store::bumped_entry(old(store).entries_view()[i], timestamp, now),
                ),
                None => final(store).entries_view() == old(store).entries_view().push(
                    EntryV {
                        id: old(store).next_id,
                        entry_type: EntryType::Shell,
                        content: cmd@,
                        timestamp,
                        times_run: 1,
                        working_dir: opt_bytes(pwd),
                        git_repo: None,
                        git_branch: None,
                        user: opt_bytes(user),
                        host: opt_bytes(host),
                        app_name: Some(str_bytes("Terminal"@)),
                        window_title: Some(str_bytes("unknown"@)),
                        embedding: None,
                        created_at: now,
                        updated_at: now,
                    },
                ),
            },
    {
        let app = "Terminal".as_bytes_vec();
        let title = "unknown".as_bytes_vec();
        store.insert_shell(cmd, timestamp, pwd, user, host, app, title, None, now)
    }

    /// Insert a prepared shell entry with an optional embedding.
    pub fn add_to_db(
        &self,
        store: &mut Store,
        entry: &ShellEntry,
        embedding: Option<Vec<u32>>,
        now: u64,
    ) -> (id: u64)
        requires
            old(store).wf(),
            old(store).next_id < u64::MAX,
            match embedding {
                Some(v) => v@.len() == old(store).dim,
                None => true,
            },
        ensures
            final(store).wf(),
            final(store).dim == old(store).dim,
            match shell_find(
                old(store).entries_view(),
                entry.content@,
                opt_bytes(entry.host),
            ) {
                Some(i) => final(store).entries_view() == old(store).entries_view().update(
                    i,
                    crate::store::bumped_entry(
                        old(store).entries_view()[i],
                        entry.timestamp,
                        now,
                    ),
                ),
                None => final(store).entries_view() == old(store).entries_view().push(
                    EntryV {
                        id: old(store).next_id,
                        entry_type: EntryType::Shell,
                        content: entry.content@,
                        timestamp: entry.timestamp,
                        times_run: 1,
                        working_dir: opt_bytes(entry.working_dir),
                        git_repo: None,
                        git_branch: None,
                        user: opt_bytes(entry.user),
                        host: opt_bytes(entry.host),
                        app_name: Some(str_bytes("Terminal"@)),
                        window_title: Some(str_bytes("unknown"@)),
                        embedding: opt_words(embedding),
                        created_at: now,
                        updated_at: now,
                    },
                ),
            },
    {
        let app = "Terminal".as_bytes_vec();
        let title = "unknown".as_bytes_vec();
        let content = crate::types::clone_bytes(&entry.content);
        let pwd = crate::types::clone_opt_bytes(&entry.working_dir);
        let user = crate::types::clone_opt_bytes(&entry.user);
        let host = crate::types::clone_opt_bytes(&entry.host);
        store.insert_shell(content, entry.timestamp, pwd, user, host, app, title, embedding, now)
    }
}

/// Whether a pushed command is captured, and under which content: the tool's
/// own invocations (`jotx`, `ja`, `js` prefixes) are never captured, capture
/// must be switched on, the plugin hub must not have vetoed it, and in
/// case-insensitive mode the content is lower-cased.
pub open spec fn capture_decision(
    cmd: Seq<u8>,
    capture_shell: bool,
    case_sensitive: bool,
    hub_action: PluginAction,
) -> Option<Seq<u8>> {
    if is_prefix_of(str_bytes("jotx"@), cmd) || is_prefix_of(str_bytes("js"@), cmd)
        || is_prefix_of(str_bytes("ja"@), cmd) {
        None
    } else if !capture_shell {
        None
    } else if hub_action == PluginAction::Stop || hub_action == PluginAction::Skip {
        None
    } else if case_sensitive {
        Some(cmd)
    } else {
        Some(lower_bytes_spec(cmd))
    }
}

/// Decide whether a pushed command is captured (see [`capture_decision`]).
pub fn should_capture_command(
    cmd: &str,
    capture_shell: bool,
    shell_case_sensitive: bool,
    hub_action: PluginAction,
) -> (r: Option<Vec<u8>>)
    ensures
        match r {
            Some(c) => capture_decision(
                cmd.spec_bytes(),
                capture_shell,
                shell_case_sensitive,
                hub_action,
            ) == Some(c@),
            None => capture_decision(
                cmd.spec_bytes(),
                capture_shell,
                shell_case_sensitive,
                hub_action,
            ) is None,
        },
{
    let b = cmd.as_bytes();
    if starts_with_bytes(b, "jotx".as_bytes()) || starts_with_bytes(b, "js".as_bytes())
        || starts_with_bytes(b, "ja".as_bytes()) {
        return None;
    }
    if !capture_shell {
        return None;
    }
    match hub_action {
        PluginAction::Stop => {
            return None;
        },
        PluginAction::Skip => {
            return None;
        },
        _ => {},
    }
    if shell_case_sensitive {
        let c = crate::text::slice_range_vec(b, 0, b.len());
        proof {
            assert(c@ =~= cmd.spec_bytes());
        }
        Some(c)
    } else {
        Some(lower_bytes(b))
    }
}

} // verus!
