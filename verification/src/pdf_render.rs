//! Render bookkeeping of the PDF viewer: which pages are drawn and at what
//! size, which renders are still running, which drawn pages belong to an
//! earlier zoom, the page rotation, and the render generation that tells a
//! current result from one that a zoom, a rotation or a reload made obsolete.
//!
//! The viewer's geometry (zoom factor, scroll offsets, page heights) is
//! floating point and stays with the front end, which hands in what it
//! measured: the page under the viewport, and whether the view stands at the
//! page it was sent to.

use std::collections::{HashMap, HashSet};
use vstd::prelude::*;

use crate::graph::{bump, bumped};

verus! {

broadcast use vstd::std_specs::hash::group_hash_axioms;

/// The index of the last page, or 0 for a document without pages.
pub open spec fn last_page(total: u16) -> u16 {
    if total == 0 {
        0
    } else {
        (total - 1) as u16
    }
}

/// `page`, or the last page when `page` lies beyond it.
pub open spec fn clamped_page(page: u16, total: u16) -> u16 {
    if page <= last_page(total) {
        page
    } else {
        last_page(total)
    }
}

/// The pages rendered around `page` once the view has settled on it: two
/// before it and two after it, within the document.
pub open spec fn window_around(page: u16, total: u16) -> (u16, u16) {
    let start = if page >= 2 {
        (page - 2) as u16
    } else {
        0
    };
    let end = if page + 2 <= last_page(total) {
        (page + 2) as u16
    } else {
        last_page(total)
    };
    (start, end)
}

/// Clamp a page index to the document.
pub fn clamp_page(page: u16, total: u16) -> (r: u16)
    ensures
        r == clamped_page(page, total),
{
    let last = total.saturating_sub(1);
    if page <= last {
        page
    } else {
        last
    }
}

/// The first and last page to render around `page`.
pub fn render_window(page: u16, total: u16) -> (r: (u16, u16))
    requires
        page + 2 <= u16::MAX,
    ensures
        r == window_around(page, total),
{
    let start = page.saturating_sub(2);
    let last = total.saturating_sub(1);
    let end = if page + 2 <= last {
        page + 2
    } else {
        last
    };
    (start, end)
}

/// The page a click on the `index`-th entry of a page list lands on: that
/// page, or the last page for an index beyond the document.
pub fn toc_click_page(index: usize, total: u16) -> (r: u16)
    ensures
        r == (if index <= last_page(total) {
            index as u16
        } else {
            last_page(total)
        }),
{
    let last = total.saturating_sub(1);
    if index <= last as usize {
        index as u16
    } else {
        last
    }
}

/// The page a link inside the document leads to: its destination, or the
/// last page for a destination beyond the document.
pub fn link_target_page(destination: u32, total: u16) -> (r: u16)
    ensures
        r == (if destination <= last_page(total) {
            destination as u16
        } else {
            last_page(total)
        }),
{
    let last = total.saturating_sub(1);
    if destination <= last as u32 {
        destination as u16
    } else {
        last
    }
}

/// Where a click on a search hit of a page leads.
#[derive(Debug, Clone, Copy, PartialEq, Eq, Structural)]
pub enum SearchJump {
    /// To this match of the search within the document.
    Match(usize),
    /// To this page, which holds no match.
    Page(u16),
}

/// Where a click on a search hit for `page` leads: the first match on that
/// page, given the page of each match in order, or else the page itself,
/// within the document.
pub fn search_hit_target(match_pages: &Vec<u16>, page: u16, total: u16) -> (r: SearchJump)
    ensures
        match r {
            SearchJump::Match(i) => i < match_pages@.len() && match_pages@[i as int] == page && (
            forall|k: int| 0 <= k < i ==> match_pages@[k] != page),
            SearchJump::Page(p) => p == clamped_page(page, total) && (forall|k: int|
                0 <= k < match_pages@.len() ==> match_pages@[k] != page),
        },
{
    let mut i: usize = 0;
    while i < match_pages.len()
        invariant
            i <= match_pages@.len(),
            forall|k: int| 0 <= k < i ==> match_pages@[k] != page,
        decreases match_pages@.len() - i,
    {
        if match_pages[i] == page {
            return SearchJump::Match(i);
        }
        i = i + 1;
    }
    SearchJump::Page(clamp_page(page, total))
}

/// What a page render came back with.
#[derive(Debug, Clone, Copy, PartialEq, Eq, Structural)]
pub enum RenderResult {
    /// The page was drawn; its size in logical pixels.
    Drawn { width: u32, height: u32 },
    /// The renderer failed on the page.
    Failed,
    /// The renderer passed the page over.
    Skipped,
}

/// What comes next after the document was opened or rotated.
#[derive(Debug, Clone, Copy, PartialEq, Eq, Structural)]
pub enum ViewFollowUp {
    /// Fit the pages to the width of the view.
    FitToWidth,
    /// Fit whole pages into the view.
    FitToPage,
    /// Render the pages in view.
    RenderVisible,
    /// Render every page.
    RenderAll,
    /// Nothing yet.
    Nothing,
}

/// The answer to an opened document.
#[derive(Debug, Clone, Copy, PartialEq, Eq, Structural)]
pub enum LoadOutcome {
    /// The result belongs to an earlier request and was dropped.
    Ignored,
    /// The document is open; `unavailable` when it has no pages, which the
    /// user is told about.
    Opened { follow_up: ViewFollowUp, unavailable: bool },
}

/// Where a drawn page leaves a jump to that page.
#[derive(Debug, Clone, Copy, PartialEq, Eq, Structural)]
pub enum Arrival {
    /// The page is not where the view is being sent.
    NotTarget,
    /// The view stands at the page: render these pages around it.
    Arrived { start: u16, end: u16 },
    /// The page is drawn but the view is not there yet: scroll on.
    ScrollOn,
}

/// The answer to a finished page render.
#[derive(Debug, Clone, Copy, PartialEq, Eq, Structural)]
pub enum RenderAction {
    /// The result belongs to an earlier generation and was dropped.
    Ignored,
    /// The page was stored.
    Stored { arrival: Arrival },
    /// The page could not be drawn: the user is told its page number.
    Failed { page_number: u32 },
    /// The renderer passed the page over.
    Skipped,
}

/// The answer to the view having scrolled.
#[derive(Debug, Clone, Copy, PartialEq, Eq, Structural)]
pub enum ScrollAction {
    /// The view reached the page it was sent to: render these pages.
    RenderRange { start: u16, end: u16 },
    /// Still on the way to that page: render nothing in between.
    Wait,
    /// An ordinary scroll: render what is in view.
    RenderViewport,
}

/// The bookkeeping as values.
#[verifier::ext_equal]
pub struct PdfRenderView {
    pub generation: u64,
    pub total_pages: u16,
    pub drawn: Seq<Option<(u32, u32)>>,
    pub pending: Set<u16>,
    pub stale: Set<u16>,
    pub pending_links: Set<u16>,
    pub rotation: u16,
    pub fit_to_width: bool,
    pub fit_to_page: bool,
    pub toc_target: Option<u16>,
    pub programmatic_scroll: bool,
    pub current_page: u16,
    pub pending_text: Set<u16>,
    pub page_text: Map<u16, String>,
    pub text_lru: Seq<u16>,
    pub text_cache_limit: usize,
}

/// Render bookkeeping of an open PDF.
pub struct PdfRenderState {
    /// Raised by every zoom and rotation; results carry the generation they
    /// were asked under.
    pub generation: u64,
    /// The number of pages.
    pub total_pages: u16,
    /// The logical size of each drawn page; `None` for a page not drawn.
    pub drawn: Vec<Option<(u32, u32)>>,
    /// Pages whose render is running.
    pub pending: HashSet<u16>,
    /// Drawn pages that belong to an earlier zoom.
    pub stale: HashSet<u16>,
    /// Pages whose links are being read.
    pub pending_links: HashSet<u16>,
    /// Clockwise rotation in degrees: 0, 90, 180 or 270.
    pub rotation: u16,
    /// Pages follow the width of the view.
    pub fit_to_width: bool,
    /// Whole pages follow the size of the view.
    pub fit_to_page: bool,
    /// The page a jump is sending the view to.
    pub toc_target: Option<u16>,
    /// The view is being scrolled by the viewer, not the user.
    pub programmatic_scroll: bool,
    /// The page in view.
    pub current_page: u16,
    /// Pages whose text is being read.
    pub pending_text: HashSet<u16>,
    /// The text read from each page that is kept.
    pub page_text: HashMap<u16, String>,
    /// The pages whose text was kept, oldest first.
    pub text_lru: Vec<u16>,
    /// The most page texts the viewer keeps.
    pub text_cache_limit: usize,
}

impl View for PdfRenderState {
    type V = PdfRenderView;

    open spec fn view(&self) -> PdfRenderView {
        PdfRenderView {
            generation: self.generation,
            total_pages: self.total_pages,
            drawn: self.drawn@,
            pending: self.pending@,
            stale: self.stale@,
            pending_links: self.pending_links@,
            rotation: self.rotation,
            fit_to_width: self.fit_to_width,
            fit_to_page: self.fit_to_page,
            toc_target: self.toc_target,
            programmatic_scroll: self.programmatic_scroll,
            current_page: self.current_page,
            pending_text: self.pending_text@,
            page_text: self.page_text@,
            text_lru: self.text_lru@,
            text_cache_limit: self.text_cache_limit,
        }
    }
}

/// Well-formed bookkeeping: one entry per page, a rotation that is a quarter
/// turn, and a text cache within its limit that remembers every page it
/// keeps.
pub open spec fn render_wf(v: PdfRenderView) -> bool {
    &&& v.drawn.len() == v.total_pages
    &&& v.rotation % 90 == 0
    &&& v.rotation < 360
    &&& v.text_lru.len() <= v.text_cache_limit
    &&& v.page_text.dom().finite()
    &&& forall|k: u16| #[trigger] v.page_text.dom().contains(k) ==> v.text_lru.contains(k)
}

/// No page drawn, for `n` pages.
pub open spec fn blank_pages(n: nat) -> Seq<Option<(u32, u32)>> {
    Seq::new(n, |i: int| None)
}

/// After a document with `pages` pages was opened under the current
/// generation.
pub open spec fn after_load(v: PdfRenderView, pages: u16) -> PdfRenderView {
    PdfRenderView {
        total_pages: pages,
        drawn: blank_pages(pages as nat),
        pending: Set::empty(),
        stale: Set::empty(),
        pending_links: Set::empty(),
        programmatic_scroll: false,
        toc_target: None,
        ..v
    }
}

/// What follows opening: fitting when a fit mode is on and some page size is
/// known, waiting when a fit mode is on without sizes, else rendering all.
pub open spec fn load_follow_up(fit_to_width: bool, fit_to_page: bool, any_size_known: bool) -> ViewFollowUp {
    if fit_to_width && any_size_known {
        ViewFollowUp::FitToWidth
    } else if fit_to_page && any_size_known {
        ViewFollowUp::FitToPage
    } else if fit_to_width || fit_to_page {
        ViewFollowUp::Nothing
    } else {
        ViewFollowUp::RenderAll
    }
}

/// After a clockwise quarter turn: every page must be drawn again, under a
/// new generation.
pub open spec fn after_rotate(v: PdfRenderView) -> PdfRenderView {
    PdfRenderView {
        rotation: ((v.rotation + 90) % 360) as u16,
        drawn: blank_pages(v.drawn.len()),
        stale: Set::empty(),
        pending: Set::empty(),
        pending_links: Set::empty(),
        generation: bump(v.generation),
        ..v
    }
}

/// What follows a rotation: fitting again in a fit mode, else rendering the
/// pages in view.
pub open spec fn rotate_follow_up(v: PdfRenderView) -> ViewFollowUp {
    if v.fit_to_width {
        ViewFollowUp::FitToWidth
    } else if v.fit_to_page {
        ViewFollowUp::FitToPage
    } else {
        ViewFollowUp::RenderVisible
    }
}

/// The pages that are drawn.
pub open spec fn drawn_pages(v: PdfRenderView) -> Set<u16> {
    Set::new(|p: u16| p < v.drawn.len() && v.drawn[p as int] is Some)
}

/// After a zoom: fit modes end, every drawn page is out of date, nothing is
/// pending, and the view is sent back to the page it showed, under a new
/// generation.
pub open spec fn after_zoom(v: PdfRenderView, page_in_view: u16) -> PdfRenderView {
    PdfRenderView {
        fit_to_width: false,
        fit_to_page: false,
        stale: drawn_pages(v),
        pending: Set::empty(),
        pending_links: Set::empty(),
        toc_target: Some(page_in_view),
        programmatic_scroll: true,
        generation: bump(v.generation),
        ..v
    }
}

/// The drawn page is stored, unless the index lies beyond the document.
pub open spec fn store_page(v: PdfRenderView, page: u16, width: u32, height: u32) -> PdfRenderView {
    if page < v.drawn.len() {
        PdfRenderView {
            drawn: v.drawn.update(page as int, Some((width, height))),
            stale: v.stale.remove(page),
            ..v
        }
    } else {
        v
    }
}

/// A jump to `page` ends without the page: the viewer stops steering.
pub open spec fn drop_target(v: PdfRenderView, page: u16) -> PdfRenderView {
    if v.toc_target == Some(page) {
        PdfRenderView { toc_target: None, programmatic_scroll: false, ..v }
    } else {
        v
    }
}

/// A drawn page that a jump was waiting for: when the view stands there the
/// jump ends on it, else the viewer keeps steering.
pub open spec fn reach_target(v: PdfRenderView, page: u16, near: bool) -> PdfRenderView {
    if v.toc_target == Some(page) {
        if near {
            PdfRenderView {
                toc_target: None,
                programmatic_scroll: false,
                current_page: clamped_page(page, v.total_pages),
                ..v
            }
        } else {
            PdfRenderView { programmatic_scroll: true, ..v }
        }
    } else {
        v
    }
}

/// After a page render came back under `generation`; `near` tells whether the
/// view stands at the page a jump is sending it to.
pub open spec fn after_render(
    v: PdfRenderView,
    generation: u64,
    page: u16,
    result: RenderResult,
    near: bool,
) -> PdfRenderView {
    let w = PdfRenderView { pending: v.pending.remove(page), ..v };
    if generation != v.generation {
        w
    } else {
        match result {
            RenderResult::Drawn { width, height } => reach_target(
                store_page(w, page, width, height),
                page,
                near,
            ),
            RenderResult::Failed => drop_target(w, page),
            RenderResult::Skipped => drop_target(w, page),
        }
    }
}

/// The answer to a page render.
pub open spec fn render_action(
    v: PdfRenderView,
    generation: u64,
    page: u16,
    result: RenderResult,
    near: bool,
) -> RenderAction {
    if generation != v.generation {
        RenderAction::Ignored
    } else {
        match result {
            RenderResult::Drawn { .. } => RenderAction::Stored {
                arrival: if v.toc_target == Some(page) {
                    if near {
                        let (start, end) = window_around(page, v.total_pages);
                        Arrival::Arrived { start, end }
                    } else {
                        Arrival::ScrollOn
                    }
                } else {
                    Arrival::NotTarget
                },
            },
            RenderResult::Failed => RenderAction::Failed { page_number: (page + 1) as u32 },
            RenderResult::Skipped => RenderAction::Skipped,
        }
    }
}


/// After the text of `page`, read under `generation`, came back (`None` when
/// the read failed): it is kept when the generation is current, as the
/// newest entry of the cache, and the oldest entry leaves when the cache is
/// over its limit.
pub open spec fn after_text(v: PdfRenderView, generation: u64, page: u16, text: Option<String>) -> PdfRenderView {
    let w = PdfRenderView { pending_text: v.pending_text.remove(page), ..v };
    if generation == v.generation && text is Some {
        let lru = w.text_lru.push(page);
        let kept = w.page_text.insert(page, text->0);
        if lru.len() > v.text_cache_limit {
            PdfRenderView { text_lru: lru.drop_first(), page_text: kept.remove(lru[0]), ..w }
        } else {
            PdfRenderView { text_lru: lru, page_text: kept, ..w }
        }
    } else {
        w
    }
}

/// The page a jump is going to is drawn.
pub open spec fn target_ready(v: PdfRenderView) -> bool {
    match v.toc_target {
        Some(t) => t < v.drawn.len() && v.drawn[t as int] is Some,
        None => false,
    }
}

/// The view reached the page of the jump: close enough, or that page is the
/// one in view, and that page is drawn.
pub open spec fn reached(v: PdfRenderView, page_in_view: u16, near: bool) -> bool {
    match v.toc_target {
        Some(t) => (near || page_in_view == t) && target_ready(v),
        None => false,
    }
}

/// Pages apart far enough that the renders running for the old position are
/// dropped.
pub open spec fn far_jump(a: u16, b: u16) -> bool {
    if a >= b {
        a - b > 8
    } else {
        b - a > 8
    }
}

/// After the view scrolled so that `page_in_view` is the page under it;
/// `near` tells whether it stands at the page a jump is sending it to.
pub open spec fn after_scroll(v: PdfRenderView, page_in_view: u16, near: bool) -> PdfRenderView {
    if v.programmatic_scroll {
        match v.toc_target {
            Some(t) => if reached(v, page_in_view, near) {
                PdfRenderView {
                    toc_target: None,
                    programmatic_scroll: false,
                    current_page: clamped_page(t, v.total_pages),
                    ..v
                }
            } else {
                v
            },
            None => after_scroll_free(PdfRenderView { programmatic_scroll: false, ..v }, page_in_view),
        }
    } else {
        after_scroll_free(PdfRenderView { toc_target: None, ..v }, page_in_view)
    }
}

/// An ordinary scroll: a new page in view becomes the current page, and a
/// far jump drops the renders and link reads still running.
pub open spec fn after_scroll_free(v: PdfRenderView, page_in_view: u16) -> PdfRenderView {
    if page_in_view != v.current_page && page_in_view < v.total_pages {
        if far_jump(page_in_view, v.current_page) {
            PdfRenderView {
                pending: Set::empty(),
                pending_links: Set::empty(),
                current_page: page_in_view,
                ..v
            }
        } else {
            PdfRenderView { current_page: page_in_view, ..v }
        }
    } else {
        v
    }
}

/// The answer to a scroll.
pub open spec fn scroll_action(v: PdfRenderView, page_in_view: u16, near: bool) -> ScrollAction {
    if v.programmatic_scroll && v.toc_target is Some {
        if reached(v, page_in_view, near) {
            let (start, end) = window_around(
                clamped_page(v.toc_target->0, v.total_pages),
                v.total_pages,
            );
            ScrollAction::RenderRange { start, end }
        } else {
            ScrollAction::Wait
        }
    } else {
        ScrollAction::RenderViewport
    }
}

fn blank_vec(n: u16) -> (v: Vec<Option<(u32, u32)>>)
    ensures
        v@ == blank_pages(n as nat),
{
    let mut v: Vec<Option<(u32, u32)>> = Vec::new();
    let mut i: u16 = 0;
    while i < n
        invariant
            i <= n,
            v@ == blank_pages(i as nat),
        decreases n - i,
    {
        v.push(None);
        assert(v@ =~= blank_pages((i + 1) as nat));
        i = i + 1;
    }
    v
}

impl PdfRenderState {
    /// Bookkeeping for a viewer with no document open: nothing drawn, upright
    /// pages, no fit mode, no page text kept; at most `text_cache_limit` page
    /// texts will be kept.
    pub fn new(text_cache_limit: usize) -> (s: PdfRenderState)
        ensures
            render_wf(s@),
            s@.generation == 0,
            s@.total_pages == 0,
            s@.pending == Set::<u16>::empty(),
            s@.stale == Set::<u16>::empty(),
            s@.pending_links == Set::<u16>::empty(),
            s@.rotation == 0,
            !s@.fit_to_width,
            !s@.fit_to_page,
            s@.toc_target is None,
            !s@.programmatic_scroll,
            s@.current_page == 0,
            s@.pending_text == Set::<u16>::empty(),
            s@.page_text == Map::<u16, String>::empty(),
            s@.text_lru == Seq::<u16>::empty(),
            s@.text_cache_limit == text_cache_limit,
    {
        PdfRenderState {
            generation: 0,
            total_pages: 0,
            drawn: Vec::new(),
            pending: HashSet::new(),
            stale: HashSet::new(),
            pending_links: HashSet::new(),
            rotation: 0,
            fit_to_width: false,
            fit_to_page: false,
            toc_target: None,
            programmatic_scroll: false,
            current_page: 0,
            pending_text: HashSet::new(),
            page_text: HashMap::new(),
            text_lru: Vec::new(),
            text_cache_limit,
        }
    }

    /// A document opened under `generation` with `pages` pages.
    /// `any_size_known` tells whether the viewer already knows the size of
    /// some page. A result of an earlier generation changes nothing.
    pub fn loaded(&mut self, generation: u64, pages: u16, any_size_known: bool) -> (r: LoadOutcome)
        requires
            render_wf(old(self)@),
        ensures
            render_wf(final(self)@),
            generation != old(self)@.generation ==> r == LoadOutcome::Ignored && final(self)@
                == old(self)@,
            generation == old(self)@.generation ==> r == (LoadOutcome::Opened {
                follow_up: load_follow_up(
                    old(self)@.fit_to_width,
                    old(self)@.fit_to_page,
                    any_size_known,
                ),
                unavailable: pages == 0,
            }) && final(self)@ == after_load(old(self)@, pages),
    {
        if generation != self.generation {
            return LoadOutcome::Ignored;
        }
        let ghost before = self@;
        self.total_pages = pages;
        self.drawn = blank_vec(pages);
        self.pending.clear();
        self.stale.clear();
        self.pending_links.clear();
        self.programmatic_scroll = false;
        self.toc_target = None;
        assert(self@ =~= after_load(before, pages));
        let follow_up = if self.fit_to_width && any_size_known {
            ViewFollowUp::FitToWidth
        } else if self.fit_to_page && any_size_known {
            ViewFollowUp::FitToPage
        } else if self.fit_to_width || self.fit_to_page {
            ViewFollowUp::Nothing
        } else {
            ViewFollowUp::RenderAll
        };
        LoadOutcome::Opened { follow_up, unavailable: pages == 0 }
    }

    /// Turn the pages a quarter clockwise, when a document is shown: every
    /// page is drawn again under a new generation.
    pub fn rotate_clockwise(&mut self, showing: bool) -> (r: ViewFollowUp)
        requires
            render_wf(old(self)@),
        ensures
            render_wf(final(self)@),
            !showing ==> r == ViewFollowUp::Nothing && final(self)@ == old(self)@,
            showing ==> r == rotate_follow_up(old(self)@) && final(self)@ == after_rotate(
                old(self)@,
            ),
    {
        if !showing {
            return ViewFollowUp::Nothing;
        }
        let ghost before = self@;
        self.rotation = (self.rotation + 90) % 360;
        self.drawn = blank_vec(self.total_pages);
        self.stale.clear();
        self.pending.clear();
        self.pending_links.clear();
        self.generation = bumped(self.generation);
        assert(self@ =~= after_rotate(before));
        if self.fit_to_width {
            ViewFollowUp::FitToWidth
        } else if self.fit_to_page {
            ViewFollowUp::FitToPage
        } else {
            ViewFollowUp::RenderVisible
        }
    }

    /// The zoom changed while `page_in_view` was the page in view: the drawn
    /// pages go out of date and the view is sent back to that page.
    pub fn zoom_changed(&mut self, page_in_view: u16)
        requires
            render_wf(old(self)@),
        ensures
            render_wf(final(self)@),
            final(self)@ == after_zoom(old(self)@, page_in_view),
    {
        let ghost before = self@;
        self.fit_to_width = false;
        self.fit_to_page = false;
        let mut stale: HashSet<u16> = HashSet::new();
        let mut i: usize = 0;
        while i < self.drawn.len()
            invariant
                self@ == (PdfRenderView { fit_to_width: false, fit_to_page: false, ..before }),
                render_wf(before),
                i <= self.drawn@.len(),
                stale@ == Set::new(
                    |p: u16| p < i && p < self.drawn@.len() && self.drawn@[p as int] is Some,
                ),
            decreases self.drawn@.len() - i,
        {
            if self.drawn[i].is_some() {
                stale.insert(i as u16);
            }
            assert(stale@ =~= Set::new(
                |p: u16| p < i + 1 && p < self.drawn@.len() && self.drawn@[p as int] is Some,
            ));
            i = i + 1;
        }
        self.stale = stale;
        self.pending.clear();
        self.pending_links.clear();
        self.toc_target = Some(page_in_view);
        self.programmatic_scroll = true;
        self.generation = bumped(self.generation);
        assert(self@.stale =~= drawn_pages(before));
        assert(self@ =~= after_zoom(before, page_in_view));
    }

    /// A render of `page` asked under `generation` came back. `near` tells
    /// whether the view stands at the page a jump is sending it to.
    pub fn render_finished(
        &mut self,
        generation: u64,
        page: u16,
        result: RenderResult,
        near: bool,
    ) -> (r: RenderAction)
        requires
            render_wf(old(self)@),
            generation == old(self)@.generation && result is Failed ==> page < u16::MAX,
            generation == old(self)@.generation && result is Drawn && old(self)@.toc_target
                == Some(page) && near ==> page + 2 <= u16::MAX,
        ensures
            render_wf(final(self)@),
            final(self)@ == after_render(old(self)@, generation, page, result, near),
            r == render_action(old(self)@, generation, page, result, near),
    {
        let ghost before = self@;
        self.pending.remove(&page);
        assert(self@ =~= (PdfRenderView { pending: before.pending.remove(page), ..before }));
        if generation != self.generation {
            return RenderAction::Ignored;
        }
        match result {
            RenderResult::Drawn { width, height } => {
                if (page as usize) < self.drawn.len() {
                    self.drawn.set(page as usize, Some((width, height)));
                    self.stale.remove(&page);
                }
                let arrival = if self.toc_target == Some(page) {
                    if near {
                        self.toc_target = None;
                        self.programmatic_scroll = false;
                        self.current_page = clamp_page(page, self.total_pages);
                        let (start, end) = render_window(page, self.total_pages);
                        Arrival::Arrived { start, end }
                    } else {
                        self.programmatic_scroll = true;
                        Arrival::ScrollOn
                    }
                } else {
                    Arrival::NotTarget
                };
                assert(self@ =~= after_render(before, generation, page, result, near));
                RenderAction::Stored { arrival }
            },
            RenderResult::Failed => {
                if self.toc_target == Some(page) {
                    self.toc_target = None;
                    self.programmatic_scroll = false;
                }
                assert(self@ =~= after_render(before, generation, page, result, near));
                RenderAction::Failed { page_number: (page + 1) as u32 }
            },
            RenderResult::Skipped => {
                if self.toc_target == Some(page) {
                    self.toc_target = None;
                    self.programmatic_scroll = false;
                }
                assert(self@ =~= after_render(before, generation, page, result, near));
                RenderAction::Skipped
            },
        }
    }


    /// Whether the text of a freshly drawn page is still to be read: it is
    /// neither kept nor being read.
    pub fn wants_page_text(&self, page: u16) -> (r: bool)
        ensures
            r == (!self@.page_text.dom().contains(page) && !self@.pending_text.contains(page)),
    {
        !self.page_text.contains_key(&page) && !self.pending_text.contains(&page)
    }

    /// The text of `page`, read under `generation`, came back; `None` when
    /// the read failed. Returns whether it was kept.
    pub fn text_loaded(&mut self, generation: u64, page: u16, text: Option<String>) -> (kept: bool)
        requires
            render_wf(old(self)@),
        ensures
            render_wf(final(self)@),
            final(self)@ == after_text(old(self)@, generation, page, text),
            kept == (generation == old(self)@.generation && text is Some),
    {
        let ghost before = self@;
        self.pending_text.remove(&page);
        if generation != self.generation {
            assert(self@ =~= after_text(before, generation, page, text));
            return false;
        }
        match text {
            Some(t) => {
                let ghost lru = self.text_lru@.push(page);
                let ghost kept_map = self.page_text@.insert(page, t);
                self.page_text.insert(page, t);
                self.text_lru.push(page);
                if self.text_lru.len() > self.text_cache_limit {
                    let oldest = self.text_lru.remove(0);
                    self.page_text.remove(&oldest);
                    assert(self.text_lru@ =~= lru.drop_first());
                    assert forall|k: u16| #[trigger] self@.page_text.dom().contains(k) implies self@.text_lru.contains(k) by {
                        assert(kept_map.dom().contains(k) && k != oldest);
                        if k == page {
                            assert(lru[lru.len() - 1] == k);
                        } else {
                            assert(before.page_text.dom().contains(k));
                            assert(before.text_lru.contains(k));
                            let j0 = choose|j0: int| 0 <= j0 < before.text_lru.len() && before.text_lru[j0] == k;
                            assert(lru[j0] == k);
                        }
                        assert(lru.contains(k));
                        let j = choose|j: int| 0 <= j < lru.len() && lru[j] == k;
                        assert(j != 0);
                        assert(self@.text_lru[j - 1] == k);
                    }
                } else {
                    assert forall|k: u16| #[trigger] self@.page_text.dom().contains(k) implies self@.text_lru.contains(k) by {
                        if k == page {
                            assert(self@.text_lru[self@.text_lru.len() - 1] == k);
                        } else {
                            assert(before.text_lru.contains(k));
                            let j = choose|j: int| 0 <= j < before.text_lru.len() && before.text_lru[j] == k;
                            assert(self@.text_lru[j] == k);
                        }
                    }
                }
                assert(self@ =~= after_text(before, generation, page, text));
                true
            },
            None => {
                assert(self@ =~= after_text(before, generation, page, text));
                false
            },
        }
    }

    /// The links of `page`, read under `generation`, came back: they are
    /// kept only when the generation is current.
    pub fn links_loaded(&mut self, generation: u64, page: u16) -> (accepted: bool)
        requires
            render_wf(old(self)@),
        ensures
            render_wf(final(self)@),
            final(self)@ == (PdfRenderView {
                pending_links: old(self)@.pending_links.remove(page),
                ..old(self)@
            }),
            accepted == (generation == old(self)@.generation),
    {
        let ghost before = self@;
        self.pending_links.remove(&page);
        assert(self@ =~= (PdfRenderView {
            pending_links: before.pending_links.remove(page),
            ..before
        }));
        generation == self.generation
    }

    /// The view scrolled so that `page_in_view` is the page under it. `near`
    /// tells whether it stands at the page a jump is sending it to.
    pub fn scrolled(&mut self, page_in_view: u16, near: bool) -> (r: ScrollAction)
        requires
            render_wf(old(self)@),
            old(self)@.programmatic_scroll && reached(old(self)@, page_in_view, near)
                ==> clamped_page(old(self)@.toc_target->0, old(self)@.total_pages) + 2 <= u16::MAX,
        ensures
            render_wf(final(self)@),
            final(self)@ == after_scroll(old(self)@, page_in_view, near),
            r == scroll_action(old(self)@, page_in_view, near),
    {
        let ghost before = self@;
        if self.programmatic_scroll {
            match self.toc_target {
                Some(t) => {
                    let ready = (t as usize) < self.drawn.len() && self.drawn[t as usize].is_some();
                    if (near || page_in_view == t) && ready {
                        self.toc_target = None;
                        self.programmatic_scroll = false;
                        self.current_page = clamp_page(t, self.total_pages);
                        let (start, end) = render_window(self.current_page, self.total_pages);
                        assert(self@ =~= after_scroll(before, page_in_view, near));
                        return ScrollAction::RenderRange { start, end };
                    }
                    return ScrollAction::Wait;
                },
                None => {
                    self.programmatic_scroll = false;
                },
            }
        } else {
            self.toc_target = None;
        }
        if page_in_view != self.current_page && page_in_view < self.total_pages {
            let gap = if page_in_view >= self.current_page {
                page_in_view - self.current_page
            } else {
                self.current_page - page_in_view
            };
            if gap > 8 {
                self.pending.clear();
                self.pending_links.clear();
            }
            self.current_page = page_in_view;
        }
        assert(self@ =~= after_scroll(before, page_in_view, near));
        ScrollAction::RenderViewport
    }
}

/// A render result of an earlier generation changes nothing but taking its
/// page off the running renders, and it is dropped.
pub proof fn lemma_stale_render_is_dropped(
    v: PdfRenderView,
    generation: u64,
    page: u16,
    result: RenderResult,
    near: bool,
)
    requires
        generation != v.generation,
    ensures
        after_render(v, generation, page, result, near) == (PdfRenderView {
            pending: v.pending.remove(page),
            ..v
        }),
        render_action(v, generation, page, result, near) == RenderAction::Ignored,
{
}

/// A render that was running when the pages were turned, or when the zoom
/// changed, is dropped when it comes back.
pub proof fn lemma_turn_and_zoom_drop_running_renders(
    v: PdfRenderView,
    page_in_view: u16,
    page: u16,
    result: RenderResult,
    near: bool,
)
    ensures
        render_action(after_rotate(v), v.generation, page, result, near) == RenderAction::Ignored,
        after_render(after_rotate(v), v.generation, page, result, near) == (PdfRenderView {
            pending: after_rotate(v).pending.remove(page),
            ..after_rotate(v)
        }),
        render_action(after_zoom(v, page_in_view), v.generation, page, result, near)
            == RenderAction::Ignored,
        after_render(after_zoom(v, page_in_view), v.generation, page, result, near) == (
        PdfRenderView {
            pending: after_zoom(v, page_in_view).pending.remove(page),
            ..after_zoom(v, page_in_view)
        }),
{
    assert(bump(v.generation) != v.generation);
}

/// Turning keeps the bookkeeping well formed, and four turns bring the
/// pages back upright as they were.
pub proof fn lemma_four_turns(v: PdfRenderView)
    requires
        render_wf(v),
    ensures
        render_wf(after_rotate(v)),
        after_rotate(after_rotate(after_rotate(after_rotate(v)))).rotation == v.rotation,
{
}

/// A page drawn under the current generation is stored with its size, and is
/// neither running nor out of date any more.
pub proof fn lemma_drawn_page_is_stored(
    v: PdfRenderView,
    page: u16,
    width: u32,
    height: u32,
    near: bool,
)
    requires
        page < v.drawn.len(),
    ensures
        ({
            let w = after_render(v, v.generation, page, RenderResult::Drawn { width, height }, near);
            &&& w.drawn[page as int] == Some((width, height))
            &&& !w.stale.contains(page)
            &&& !w.pending.contains(page)
            &&& w.drawn.len() == v.drawn.len()
        }),
{
}

/// After a zoom every drawn page is out of date and no render is running.
pub proof fn lemma_zoom_marks_drawn_pages_stale(v: PdfRenderView, page_in_view: u16, p: u16)
    ensures
        after_zoom(v, page_in_view).stale.contains(p) <==> (p < v.drawn.len() && v.drawn[p as int] is Some),
        after_zoom(v, page_in_view).pending.is_empty(),
{
}

/// Pages rendered around a page of the document lie in the document and
/// take in that page.
pub proof fn lemma_window_covers_page(page: u16, total: u16)
    requires
        page < total,
        page + 2 <= u16::MAX,
    ensures
        window_around(page, total).0 <= page <= window_around(page, total).1 < total,
{
}

/// The viewer never keeps the text of more pages than its limit.
pub proof fn lemma_text_cache_bounded(v: PdfRenderView)
    requires
        render_wf(v),
    ensures
        v.page_text.dom().len() <= v.text_cache_limit,
{
    assert(v.page_text.dom().subset_of(v.text_lru.to_set()));
    v.text_lru.lemma_cardinality_of_set();
    vstd::set_lib::lemma_len_subset(v.page_text.dom(), v.text_lru.to_set());
}

} // verus!
