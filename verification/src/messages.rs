//! Values the user interface passes around: tracker tabs and keyboard
//! shortcuts.

use vstd::prelude::*;

verus! {

/// The study tracker's tabs.
#[derive(Debug, Clone, Copy, PartialEq, Eq, Structural)]
pub enum TrackerTab {
    Dashboard,
    Log,
    Projects,
    Gates,
    Reading,
    Config,
}

/// Application-wide keyboard shortcuts.
#[derive(Debug, Clone, Copy, PartialEq, Eq, Structural)]
pub enum Shortcut {
    Save,
    OpenVault,
    NewFile,
    Search,
    CommandPalette,
    ToggleSidebar,
    ToggleBacklinks,
    KnowledgeGraph,
    FocusMode,
    TableOfContents,
    StudyTracker,
    SplitView,
    Escape,
}

/// Whether an editor search wrapped past the end or the start.
#[derive(Debug, Clone, Copy, PartialEq, Eq, Structural)]
pub enum SearchWrapStatus {
    WrappedForward,
    WrappedBackward,
}

} // verus!
