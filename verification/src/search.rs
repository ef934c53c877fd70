//! Search panels: the in-document find bar, the PDF find bar and the
//! vault-wide search's progress.

use std::collections::HashMap;
use vstd::prelude::*;

use crate::messages::SearchWrapStatus;

verus! {

/// A match in a note.
#[derive(Debug, Clone, PartialEq)]
pub struct SearchResult {
    pub path: String,
    pub line: usize,
    pub context: String,
}

/// The editor's find-and-replace bar.
#[derive(Debug, Clone)]
pub struct EditorSearchState {
    pub query: String,
    pub replace: String,
    pub regex: bool,
    pub match_case: bool,
    pub matches: Vec<SearchResult>,
    pub active_index: Option<usize>,
    pub visible: bool,
    pub wrap_status: Option<SearchWrapStatus>,
}

impl EditorSearchState {
    /// Drop the matches, the active match and the wrap notice; the query,
    /// the replacement, the options and the visibility stay.
    pub fn reset_results(&mut self)
        ensures
            final(self).matches@.len() == 0,
            final(self).active_index is None,
            final(self).wrap_status is None,
            final(self).query == old(self).query,
            final(self).replace == old(self).replace,
            final(self).regex == old(self).regex,
            final(self).match_case == old(self).match_case,
            final(self).visible == old(self).visible,
    {
        self.matches = Vec::new();
        self.active_index = None;
        self.wrap_status = None;
    }
}

/// A match of the PDF find bar: the page it is on and the text around it.
#[derive(Debug, Clone, PartialEq)]
pub struct PdfSearchHit {
    pub page_index: u16,
    pub context: String,
}

/// The PDF viewer's find bar.
#[derive(Debug)]
pub struct PdfSearchState {
    pub query: String,
    pub regex: bool,
    pub match_case: bool,
    pub matches: Vec<PdfSearchHit>,
    pub active_index: Option<usize>,
    /// The matches on each page, by their position in `matches`.
    pub page_index: HashMap<u16, Vec<usize>>,
    pub searching: bool,
    pub visible: bool,
}

impl PdfSearchState {
    /// Drop the matches, their page index and the active match, and stop
    /// searching; the query, the options and the visibility stay.
    pub fn reset_results(&mut self)
        ensures
            final(self).matches@.len() == 0,
            final(self).page_index@ == Map::<u16, Vec<usize>>::empty(),
            final(self).active_index is None,
            !final(self).searching,
            final(self).query == old(self).query,
            final(self).regex == old(self).regex,
            final(self).match_case == old(self).match_case,
            final(self).visible == old(self).visible,
    {
        self.matches = Vec::new();
        self.active_index = None;
        self.page_index.clear();
        self.searching = false;
    }
}

impl Default for PdfSearchState {
    /// An empty find bar: no query, no options, no matches, hidden.
    fn default() -> (s: PdfSearchState)
        ensures
            s.query@ == Seq::<char>::empty(),
            !s.regex,
            !s.match_case,
            s.matches@.len() == 0,
            s.active_index is None,
            s.page_index@ == Map::<u16, Vec<usize>>::empty(),
            !s.searching,
            !s.visible,
    {
        PdfSearchState {
            query: String::new(),
            regex: false,
            match_case: false,
            matches: Vec::new(),
            active_index: None,
            page_index: HashMap::new(),
            searching: false,
            visible: false,
        }
    }
}

/// Progress of a vault-wide search across its three sources.
#[derive(Debug, Clone)]
pub struct GlobalSearchProgress {
    pub id: u64,
    pub pdf_search_id: Option<u64>,
    pub pending_db: bool,
    pub pending_pdf: bool,
    pub pending_vault_pdf: bool,
    pub pdf_status: Option<String>,
    pub searching: bool,
    pub error: Option<String>,
}

impl GlobalSearchProgress {
    /// The search is running while any source is still pending.
    pub fn update_searching(&mut self)
        ensures
            final(self).searching == (old(self).pending_db || old(self).pending_pdf || old(
                self,
            ).pending_vault_pdf),
            final(self).pending_db == old(self).pending_db,
            final(self).pending_pdf == old(self).pending_pdf,
            final(self).pending_vault_pdf == old(self).pending_vault_pdf,
            final(self).id == old(self).id,
            final(self).pdf_search_id == old(self).pdf_search_id,
            final(self).pdf_status == old(self).pdf_status,
            final(self).error == old(self).error,
    {
        self.searching = self.pending_db || self.pending_pdf || self.pending_vault_pdf;
    }

    /// The viewer's PDF search `search_id` finished. When it is the PDF part
    /// this search waits for, that part is done and the search runs on only
    /// while another source is pending; otherwise nothing changes.
    pub fn pdf_search_finished(&mut self, search_id: u64) -> (was_awaited: bool)
        ensures
            was_awaited == (old(self).pdf_search_id == Some(search_id)),
            !was_awaited ==> *final(self) == *old(self),
            was_awaited ==> {
                &&& !final(self).pending_pdf
                &&& final(self).pdf_search_id is None
                &&& final(self).searching == (old(self).pending_db || old(self).pending_vault_pdf)
                &&& final(self).pending_db == old(self).pending_db
                &&& final(self).pending_vault_pdf == old(self).pending_vault_pdf
                &&& final(self).id == old(self).id
                &&& final(self).pdf_status == old(self).pdf_status
                &&& final(self).error == old(self).error
            },
    {
        if self.pdf_search_id == Some(search_id) {
            self.pending_pdf = false;
            self.pdf_search_id = None;
            self.update_searching();
            true
        } else {
            false
        }
    }

    /// Forget the results of a search: no error, no PDF status or PDF search,
    /// nothing pending, not searching; the generation `id` stays.
    pub fn reset_results(&mut self)
        ensures
            final(self).id == old(self).id,
            final(self).error is None,
            final(self).pdf_status is None,
            final(self).pdf_search_id is None,
            !final(self).pending_db && !final(self).pending_pdf && !final(self).pending_vault_pdf,
            !final(self).searching,
    {
        self.error = None;
        self.pdf_status = None;
        self.pdf_search_id = None;
        self.pending_db = false;
        self.pending_pdf = false;
        self.pending_vault_pdf = false;
        self.searching = false;
    }
}

} // verus!
