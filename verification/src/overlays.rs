//! Modal dialogs, palettes, the excerpt queue and the toast.

use vstd::prelude::*;

verus! {

/// The dialogs that ask for a name.
#[derive(Debug, Clone, Copy, PartialEq, Eq, Structural)]
pub enum ModalType {
    CreateFile,
    CreateFolder,
}

/// Something that can be cited into a note.
#[derive(Debug, Clone, PartialEq)]
pub enum CitationItem {
    /// Selected text on a PDF page.
    Selection { text: String, page_index: u16 },
}

/// Which overlays are open and what has been typed into them.
#[derive(Debug)]
pub struct OverlayState {
    pub active_modal: Option<ModalType>,
    pub modal_input: String,
    pub link_note_picker_search: String,
    pub command_palette_visible: bool,
    pub command_palette_query: String,
    pub citation_palette_visible: bool,
    pub citation_palette_query: String,
    pub excerpt_mode_active: bool,
    pub excerpts_queue: Vec<CitationItem>,
    pub toast: Option<String>,
}

fn empty_string() -> (s: String)
    ensures
        s@.len() == 0,
{
    String::new()
}

impl OverlayState {
    /// Every overlay closed and every input empty.
    pub open spec fn is_reset(&self) -> bool {
        &&& self.active_modal is None
        &&& self.modal_input@.len() == 0
        &&& self.link_note_picker_search@.len() == 0
        &&& !self.command_palette_visible
        &&& self.command_palette_query@.len() == 0
        &&& !self.citation_palette_visible
        &&& self.citation_palette_query@.len() == 0
        &&& !self.excerpt_mode_active
        &&& self.excerpts_queue@.len() == 0
        &&& self.toast is None
    }

    /// Nothing open.
    pub fn new() -> (s: OverlayState)
        ensures
            s.is_reset(),
    {
        OverlayState {
            active_modal: None,
            modal_input: empty_string(),
            link_note_picker_search: empty_string(),
            command_palette_visible: false,
            command_palette_query: empty_string(),
            citation_palette_visible: false,
            citation_palette_query: empty_string(),
            excerpt_mode_active: false,
            excerpts_queue: Vec::new(),
            toast: None,
        }
    }

    /// Close the modal and clear what was typed into it and its note picker;
    /// other overlays are left alone.
    pub fn close_modal(&mut self)
        ensures
            final(self).active_modal is None,
            final(self).modal_input@.len() == 0,
            final(self).link_note_picker_search@.len() == 0,
            final(self).command_palette_visible == old(self).command_palette_visible,
            final(self).command_palette_query == old(self).command_palette_query,
            final(self).citation_palette_visible == old(self).citation_palette_visible,
            final(self).citation_palette_query == old(self).citation_palette_query,
            final(self).excerpt_mode_active == old(self).excerpt_mode_active,
            final(self).excerpts_queue == old(self).excerpts_queue,
            final(self).toast == old(self).toast,
    {
        self.active_modal = None;
        self.modal_input = empty_string();
        self.link_note_picker_search = empty_string();
    }

    /// Close the command palette and clear its query; nothing else changes.
    pub fn close_command_palette(&mut self)
        ensures
            !final(self).command_palette_visible,
            final(self).command_palette_query@.len() == 0,
            final(self).active_modal == old(self).active_modal,
            final(self).modal_input == old(self).modal_input,
            final(self).link_note_picker_search == old(self).link_note_picker_search,
            final(self).citation_palette_visible == old(self).citation_palette_visible,
            final(self).citation_palette_query == old(self).citation_palette_query,
            final(self).excerpt_mode_active == old(self).excerpt_mode_active,
            final(self).excerpts_queue == old(self).excerpts_queue,
            final(self).toast == old(self).toast,
    {
        self.command_palette_visible = false;
        self.command_palette_query = empty_string();
    }

    /// Close the citation palette and clear its query; nothing else changes.
    pub fn close_citation_palette(&mut self)
        ensures
            !final(self).citation_palette_visible,
            final(self).citation_palette_query@.len() == 0,
            final(self).active_modal == old(self).active_modal,
            final(self).modal_input == old(self).modal_input,
            final(self).link_note_picker_search == old(self).link_note_picker_search,
            final(self).command_palette_visible == old(self).command_palette_visible,
            final(self).command_palette_query == old(self).command_palette_query,
            final(self).excerpt_mode_active == old(self).excerpt_mode_active,
            final(self).excerpts_queue == old(self).excerpts_queue,
            final(self).toast == old(self).toast,
    {
        self.citation_palette_visible = false;
        self.citation_palette_query = empty_string();
    }

    /// Close everything and clear every input, queue and toast.
    pub fn reset(&mut self)
        ensures
            final(self).is_reset(),
    {
        *self = OverlayState::new();
    }
}

impl Default for OverlayState {
    fn default() -> (s: OverlayState)
        ensures
            s.is_reset(),
    {
        OverlayState::new()
    }
}

} // verus!
