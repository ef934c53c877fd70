//! The open vault, the selected and active documents, expanded folders and
//! backlinks.

use vstd::prelude::*;

use crate::navigation::NavigationHistory;
use crate::path_set::PathSet;

verus! {

/// What a backlink points from.
#[derive(Debug, Clone, PartialEq)]
pub enum BacklinkTarget {
    MarkdownFile { path: String },
}

/// A note that links to the active document.
#[derive(Debug, Clone, PartialEq)]
pub struct BacklinkItem {
    pub source: BacklinkTarget,
    pub label: String,
    pub context: Option<String>,
}

/// What the sidebar asks of the workspace.
#[derive(Debug, Clone)]
pub enum WorkspaceMessage {
    OpenVaultDialog,
    CreateVaultDialog,
    OpenRecentVault(String),
    VaultOpened(Option<String>),
    FileClicked(String),
    FolderToggled(String),
    CreateFileDialog,
    CreateFolderDialog,
    DeleteFile(String),
    DeleteFileDialog(String),
}

/// The workspace around the open vault.
#[derive(Debug)]
pub struct WorkspaceState {
    pub vault_root: Option<String>,
    pub selected_path: Option<String>,
    pub active_path: Option<String>,
    /// Expanded folders.
    pub expanded_folders: PathSet,
    pub backlinks_visible: bool,
    pub backlinks: Vec<BacklinkItem>,
    pub navigation_history: NavigationHistory,
}

impl WorkspaceState {
    /// No vault, no documents, nothing expanded, an empty history.
    pub fn new() -> (s: WorkspaceState)
        ensures
            s.vault_root is None,
            s.selected_path is None,
            s.active_path is None,
            s.expanded_folders.wf(),
            s.expanded_folders.set() == Set::<Seq<char>>::empty(),
            !s.backlinks_visible,
            s.backlinks@.len() == 0,
            s.navigation_history.entries@.len() == 0,
            s.navigation_history.current_index == 0,
            s.navigation_history.max_entries == 50,
    {
        WorkspaceState {
            vault_root: None,
            selected_path: None,
            active_path: None,
            expanded_folders: PathSet::new(),
            backlinks_visible: false,
            backlinks: Vec::new(),
            navigation_history: NavigationHistory::new(),
        }
    }

    /// Handle the messages the workspace answers by itself: a folder toggle.
    /// Returns whether the message was handled here.
    pub fn update_local(&mut self, message: &WorkspaceMessage) -> (handled: bool)
        requires
            old(self).expanded_folders.wf(),
        ensures
            final(self).expanded_folders.wf(),
            handled == (message is FolderToggled),
            match message {
                WorkspaceMessage::FolderToggled(p) => final(self).expanded_folders.set() == (if old(
                    self,
                ).expanded_folders.set().contains(p@) {
                    old(self).expanded_folders.set().remove(p@)
                } else {
                    old(self).expanded_folders.set().insert(p@)
                }),
                _ => final(self).expanded_folders.set() == old(self).expanded_folders.set(),
            },
    {
        match message {
            WorkspaceMessage::FolderToggled(vault_path) => {
                self.toggle_folder(vault_path.clone());
                true
            },
            _ => false,
        }
    }

    /// Expand a folder, or collapse it when it is already expanded.
    pub fn toggle_folder(&mut self, vault_path: String)
        requires
            old(self).expanded_folders.wf(),
        ensures
            final(self).expanded_folders.wf(),
            final(self).expanded_folders.set() == (if old(self).expanded_folders.set().contains(
                vault_path@,
            ) {
                old(self).expanded_folders.set().remove(vault_path@)
            } else {
                old(self).expanded_folders.set().insert(vault_path@)
            }),
    {
        self.expanded_folders.toggle(vault_path);
    }

    /// Whether a folder is expanded.
    pub fn is_expanded(&self, vault_path: &str) -> (r: bool)
        ensures
            r == self.expanded_folders.set().contains(vault_path@),
    {
        self.expanded_folders.contains(vault_path)
    }

    /// Close the active markdown document: it and its backlinks go; the
    /// vault, the selection and the history stay.
    pub fn clear_active_markdown(&mut self)
        ensures
            final(self).active_path is None,
            final(self).backlinks@.len() == 0,
            final(self).vault_root == old(self).vault_root,
            final(self).selected_path == old(self).selected_path,
            final(self).expanded_folders.set() == old(self).expanded_folders.set(),
            final(self).backlinks_visible == old(self).backlinks_visible,
            final(self).navigation_history == old(self).navigation_history,
    {
        self.active_path = None;
        self.backlinks = Vec::new();
    }
}

/// Expanding a folder and then toggling it again leaves the expanded set as
/// it was.
pub proof fn lemma_toggle_twice(folders: Set<Seq<char>>, path: Seq<char>)
    ensures
        ({
            let once = if folders.contains(path) {
                folders.remove(path)
            } else {
                folders.insert(path)
            };
            let twice = if once.contains(path) {
                once.remove(path)
            } else {
                once.insert(path)
            };
            twice == folders
        }),
{
    let once = if folders.contains(path) {
        folders.remove(path)
    } else {
        folders.insert(path)
    };
    if folders.contains(path) {
        assert(once.insert(path) =~= folders);
    } else {
        assert(once.remove(path) =~= folders);
    }
}

} // verus!
