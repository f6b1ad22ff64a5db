//! Capture settings: per-stream toggles, case sensitivity and retention
//! caps. Persistence of these values is the durable layer's concern.
use vstd::prelude::*;

verus! {

/// The capture settings table.
#[derive(Debug, Clone)]
pub struct Settings {
    pub capture_clipboard: bool,
    pub capture_shell: bool,
    pub capture_shell_history_with_files: bool,
    pub shell_case_sensitive: bool,
    pub clipboard_case_sensitive: bool,
    pub clipboard_limit: usize,
    pub shell_limit: usize,
}

impl Settings {
    /// The defaults: both streams captured case-insensitively, history-file
    /// sweeps off, 10_000 clipboard rows and 5_000 shell rows retained.
    pub fn default() -> (r: Settings)
        ensures
            r.capture_clipboard == true,
            r.capture_shell == true,
            r.capture_shell_history_with_files == false,
            r.shell_case_sensitive == false,
            r.clipboard_case_sensitive == false,
            r.clipboard_limit == 10000,
            r.shell_limit == 5000,
    {
        Settings {
            capture_clipboard: true,
            capture_shell: true,
            capture_shell_history_with_files: false,
            shell_case_sensitive: false,
            clipboard_case_sensitive: false,
            clipboard_limit: 10000,
            shell_limit: 5000,
        }
    }

    /// Flip clipboard capture.
    pub fn toggle_clipboard(&mut self)
        ensures
            final(self).capture_clipboard == !old(self).capture_clipboard,
            final(self).capture_shell == old(self).capture_shell,
            final(self).capture_shell_history_with_files == old(self).capture_shell_history_with_files,
            final(self).shell_case_sensitive == old(self).shell_case_sensitive,
            final(self).clipboard_case_sensitive == old(self).clipboard_case_sensitive,
            final(self).clipboard_limit == old(self).clipboard_limit,
            final(self).shell_limit == old(self).shell_limit,
    {
        self.capture_clipboard = !self.capture_clipboard;
    }

    /// Flip shell capture.
    pub fn toggle_shell(&mut self)
        ensures
            final(self).capture_shell == !old(self).capture_shell,
            final(self).capture_clipboard == old(self).capture_clipboard,
            final(self).capture_shell_history_with_files == old(self).capture_shell_history_with_files,
            final(self).shell_case_sensitive == old(self).shell_case_sensitive,
            final(self).clipboard_case_sensitive == old(self).clipboard_case_sensitive,
            final(self).clipboard_limit == old(self).clipboard_limit,
            final(self).shell_limit == old(self).shell_limit,
    {
        self.capture_shell = !self.capture_shell;
    }

    /// Flip the history-file sweep.
    pub fn toggle_shell_history(&mut self)
        ensures
            final(self).capture_shell_history_with_files == !old(self).capture_shell_history_with_files,
            final(self).capture_clipboard == old(self).capture_clipboard,
            final(self).capture_shell == old(self).capture_shell,
            final(self).shell_case_sensitive == old(self).shell_case_sensitive,
            final(self).clipboard_case_sensitive == old(self).clipboard_case_sensitive,
            final(self).clipboard_limit == old(self).clipboard_limit,
            final(self).shell_limit == old(self).shell_limit,
    {
        self.capture_shell_history_with_files = !self.capture_shell_history_with_files;
    }

    /// Flip shell case sensitivity.
    pub fn toggle_shell_case_sensitive(&mut self)
        ensures
            final(self).shell_case_sensitive == !old(self).shell_case_sensitive,
            final(self).capture_clipboard == old(self).capture_clipboard,
            final(self).capture_shell == old(self).capture_shell,
            final(self).capture_shell_history_with_files == old(self).capture_shell_history_with_files,
            final(self).clipboard_case_sensitive == old(self).clipboard_case_sensitive,
            final(self).clipboard_limit == old(self).clipboard_limit,
            final(self).shell_limit == old(self).shell_limit,
    {
        self.shell_case_sensitive = !self.shell_case_sensitive;
    }

    /// Flip clipboard case sensitivity.
    pub fn toggle_clipboard_case_sensitive(&mut self)
        ensures
            final(self).clipboard_case_sensitive == !old(self).clipboard_case_sensitive,
            final(self).capture_clipboard == old(self).capture_clipboard,
            final(self).capture_shell == old(self).capture_shell,
            final(self).capture_shell_history_with_files == old(self).capture_shell_history_with_files,
            final(self).shell_case_sensitive == old(self).shell_case_sensitive,
            final(self).clipboard_limit == old(self).clipboard_limit,
            final(self).shell_limit == old(self).shell_limit,
    {
        self.clipboard_case_sensitive = !self.clipboard_case_sensitive;
    }

    /// Set the clipboard retention cap.
    pub fn set_clipboard_limit(&mut self, limit: usize)
        ensures
            final(self).clipboard_limit == limit,
            final(self).capture_clipboard == old(self).capture_clipboard,
            final(self).capture_shell == old(self).capture_shell,
            final(self).capture_shell_history_with_files == old(self).capture_shell_history_with_files,
            final(self).shell_case_sensitive == old(self).shell_case_sensitive,
            final(self).clipboard_case_sensitive == old(self).clipboard_case_sensitive,
            final(self).shell_limit == old(self).shell_limit,
    {
        self.clipboard_limit = limit;
    }

    /// Set the shell retention cap.
    pub fn set_shell_limit(&mut self, limit: usize)
        ensures
            final(self).shell_limit == limit,
            final(self).capture_clipboard == old(self).capture_clipboard,
            final(self).capture_shell == old(self).capture_shell,
            final(self).capture_shell_history_with_files == old(self).capture_shell_history_with_files,
            final(self).shell_case_sensitive == old(self).shell_case_sensitive,
            final(self).clipboard_case_sensitive == old(self).clipboard_case_sensitive,
            final(self).clipboard_limit == old(self).clipboard_limit,
    {
        self.shell_limit = limit;
    }
}

} // verus!
