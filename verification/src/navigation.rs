//! Back/forward navigation history across markdown notes and PDF pages.

use vstd::prelude::*;

use crate::text::chars_equal;
use crate::text::chars_of;

verus! {

/// A place the user can navigate back to.
///
/// A PDF position's scroll offset and zoom are held as the bit patterns of
/// their `f32` values (`f32::to_bits`), and compared as the floats compare.
#[derive(Debug, Clone)]
pub enum NavigationTarget {
    Markdown { path: String, line: usize, column: usize },
    Pdf { path: String, page: u16, scroll_offset_bits: u32, zoom_bits: u32 },
}

/// The mathematical content of a target.
pub enum TargetView {
    Markdown { path: Seq<char>, line: usize, column: usize },
    Pdf { path: Seq<char>, page: u16, scroll_offset_bits: u32, zoom_bits: u32 },
}

impl View for NavigationTarget {
    type V = TargetView;

    open spec fn view(&self) -> TargetView {
        match self {
            NavigationTarget::Markdown { path, line, column } => TargetView::Markdown {
                path: path@,
                line: *line,
                column: *column,
            },
            NavigationTarget::Pdf { path, page, scroll_offset_bits, zoom_bits } => TargetView::Pdf {
                path: path@,
                page: *page,
                scroll_offset_bits: *scroll_offset_bits,
                zoom_bits: *zoom_bits,
            },
        }
    }
}

/// A NaN: every exponent bit set and a non-zero mantissa.
pub open spec fn is_nan_bits(x: u32) -> bool {
    (x & 0x7f80_0000u32) == 0x7f80_0000u32 && (x & 0x007f_ffffu32) != 0
}

/// Two `f32` values, given by their bit patterns, compare equal: both are
/// zeros of either sign, or they are the same value and not NaN.
pub open spec fn f32_bits_equal(a: u32, b: u32) -> bool {
    ((a & 0x7fff_ffffu32) == 0 && (b & 0x7fff_ffffu32) == 0) || (a == b && !is_nan_bits(a))
}

fn floats_equal(a: u32, b: u32) -> (r: bool)
    ensures
        r == f32_bits_equal(a, b),
{
    let nan = (a & 0x7f80_0000u32) == 0x7f80_0000u32 && (a & 0x007f_ffffu32) != 0;
    ((a & 0x7fff_ffffu32) == 0 && (b & 0x7fff_ffffu32) == 0) || (a == b && !nan)
}

/// Two targets are the same place: the same note position, or the same PDF
/// page at an equal scroll offset and zoom.
pub open spec fn same_place(a: TargetView, b: TargetView) -> bool {
    match (a, b) {
        (
            TargetView::Markdown { path: p1, line: l1, column: c1 },
            TargetView::Markdown { path: p2, line: l2, column: c2 },
        ) => p1 == p2 && l1 == l2 && c1 == c2,
        (
            TargetView::Pdf { path: p1, page: g1, scroll_offset_bits: s1, zoom_bits: z1 },
            TargetView::Pdf { path: p2, page: g2, scroll_offset_bits: s2, zoom_bits: z2 },
        ) => p1 == p2 && g1 == g2 && f32_bits_equal(s1, s2) && f32_bits_equal(z1, z2),
        _ => false,
    }
}

fn same_path(a: &String, b: &String) -> (r: bool)
    ensures
        r == (a@ == b@),
{
    let x = chars_of(a.as_str());
    let y = chars_of(b.as_str());
    chars_equal(&x, &y)
}

impl NavigationTarget {
    /// Whether two targets are the same place.
    pub fn same_as(&self, other: &NavigationTarget) -> (r: bool)
        ensures
            r == same_place(self@, other@),
    {
        match (self, other) {
            (
                NavigationTarget::Markdown { path: p1, line: l1, column: c1 },
                NavigationTarget::Markdown { path: p2, line: l2, column: c2 },
            ) => *l1 == *l2 && *c1 == *c2 && same_path(p1, p2),
            (
                NavigationTarget::Pdf { path: p1, page: g1, scroll_offset_bits: s1, zoom_bits: z1 },
                NavigationTarget::Pdf { path: p2, page: g2, scroll_offset_bits: s2, zoom_bits: z2 },
            ) => *g1 == *g2 && floats_equal(*s1, *s2) && floats_equal(*z1, *z2) && same_path(p1, p2),
            _ => false,
        }
    }

    /// A copy of this target.
    pub fn duplicate(&self) -> (r: NavigationTarget)
        ensures
            r == *self,
    {
        match self {
            NavigationTarget::Markdown { path, line, column } => NavigationTarget::Markdown {
                path: path.clone(),
                line: *line,
                column: *column,
            },
            NavigationTarget::Pdf { path, page, scroll_offset_bits, zoom_bits } => {
                NavigationTarget::Pdf {
                    path: path.clone(),
                    page: *page,
                    scroll_offset_bits: *scroll_offset_bits,
                    zoom_bits: *zoom_bits,
                }
            },
        }
    }
}

impl PartialEq for NavigationTarget {
    fn eq(&self, other: &NavigationTarget) -> (r: bool) {
        self.same_as(other)
    }
}

impl vstd::std_specs::cmp::PartialEqSpecImpl for NavigationTarget {
    open spec fn obeys_eq_spec() -> bool {
        true
    }

    open spec fn eq_spec(&self, other: &NavigationTarget) -> bool {
        same_place(self@, other@)
    }
}

/// A visited target and when it was visited (seconds since the Unix epoch).
#[derive(Debug, Clone)]
pub struct NavigationPoint {
    pub target: NavigationTarget,
    pub timestamp: u64,
}

/// A reading of the system clock, as std holds it.
#[verifier::external_type_specification]
#[verifier::external_body]
pub struct ExSystemTime(std::time::SystemTime);

/// Calls `SystemTime::now`. Nothing is claimed of the reading.
#[verifier::external_body]
fn system_now() -> std::time::SystemTime {
    std::time::SystemTime::now()
}

/// Calls `SystemTime::duration_since` with the Unix epoch; `None` for a
/// reading before it. Nothing is claimed of the duration.
#[verifier::external_body]
fn since_unix_epoch(t: &std::time::SystemTime) -> Option<std::time::Duration> {
    t.duration_since(std::time::SystemTime::UNIX_EPOCH).ok()
}

/// Calls `Duration::as_secs`. Nothing is claimed of the count.
#[verifier::external_body]
fn whole_seconds(d: &std::time::Duration) -> u64 {
    d.as_secs()
}

/// The system clock as whole seconds since the Unix epoch, or zero for a
/// clock set before it.
fn unix_time_secs() -> u64 {
    match since_unix_epoch(&system_now()) {
        Some(d) => whole_seconds(&d),
        None => 0,
    }
}

impl NavigationPoint {
    /// A point for `target`, stamped with the current time.
    pub fn new(target: NavigationTarget) -> (p: NavigationPoint)
        ensures
            p.target == target,
    {
        let timestamp = unix_time_secs();
        NavigationPoint { target, timestamp }
    }
}

/// The visited targets, oldest first, and the one the user is at.
#[derive(Debug, Clone)]
pub struct NavigationHistory {
    pub entries: Vec<NavigationPoint>,
    pub current_index: usize,
    pub max_entries: usize,
}

/// The entries that remain when a new target is pushed while the user is in
/// the middle of the history: everything after the current entry is dropped.
pub open spec fn kept_before_push(entries: Seq<NavigationPoint>, current: int) -> Seq<
    NavigationPoint,
> {
    if entries.len() > 0 && current < entries.len() - 1 {
        entries.take(current + 1)
    } else {
        entries
    }
}

/// At most `max` entries, the oldest dropped first.
pub open spec fn capped(entries: Seq<NavigationPoint>, max: int) -> Seq<NavigationPoint> {
    if entries.len() > max {
        entries.drop_first()
    } else {
        entries
    }
}

/// Where the user moves on "back", if anywhere.
pub open spec fn back_index(len: int, current: int) -> Option<int> {
    if current > 0 && len > 0 {
        Some(current - 1)
    } else {
        None
    }
}

/// Where the user moves on "forward", if anywhere.
pub open spec fn forward_index(len: int, current: int) -> Option<int> {
    if current + 1 < len {
        Some(current + 1)
    } else {
        None
    }
}

impl NavigationHistory {
    /// The current index points at an entry, or at zero when there is none.
    pub open spec fn well_formed(&self) -> bool {
        if self.entries@.len() == 0 {
            self.current_index == 0
        } else {
            self.current_index < self.entries@.len()
        }
    }

    /// An empty history that keeps the last fifty places.
    pub fn new() -> (h: NavigationHistory)
        ensures
            h.entries@.len() == 0,
            h.current_index == 0,
            h.max_entries == 50,
            h.well_formed(),
    {
        NavigationHistory { entries: Vec::new(), current_index: 0, max_entries: 50 }
    }

    /// Record a visit to `target`. Forward history beyond the current entry is
    /// dropped; a visit to the place already at the end is not recorded twice;
    /// the oldest entry goes when the history is full. The current entry
    /// becomes the last one.
    pub fn push(&mut self, target: NavigationTarget)
        ensures
            final(self).max_entries == old(self).max_entries,
            ({
                let kept = kept_before_push(old(self).entries@, old(self).current_index as int);
                if kept.len() > 0 && same_place(kept.last().target@, target@) {
                    final(self).entries@ == kept && final(self).current_index == old(
                        self,
                    ).current_index
                } else {
                    &&& exists|p: NavigationPoint|
                        p.target == target && final(self).entries@ == capped(
                            kept.push(p),
                            old(self).max_entries as int,
                        )
                    &&& final(self).current_index == (if final(self).entries@.len() > 0 {
                        final(self).entries@.len() - 1
                    } else {
                        0
                    })
                }
            }),
            old(self).well_formed() ==> final(self).well_formed(),
    {
        let ghost entries_before = self.entries@;
        if self.entries.len() > 0 && self.current_index < self.entries.len() - 1 {
            self.entries.truncate(self.current_index + 1);
        }
        assert(self.entries@ == kept_before_push(entries_before, old(self).current_index as int));
        let len = self.entries.len();
        if len > 0 && self.entries[len - 1].target.same_as(&target) {
            return;
        }
        let point = NavigationPoint::new(target);
        let ghost kept = self.entries@;
        self.entries.push(point);
        let ghost pushed = self.entries@;
        if self.entries.len() > self.max_entries {
            self.entries.remove(0);
            assert(self.entries@ =~= pushed.drop_first());
        }
        assert(self.entries@ == capped(kept.push(point), self.max_entries as int));
        self.current_index = if self.entries.len() > 0 {
            self.entries.len() - 1
        } else {
            0
        };
    }

    /// Step back one entry, returning the target there.
    pub fn go_back(&mut self) -> (r: Option<NavigationTarget>)
        requires
            old(self).entries@.len() > 0 ==> old(self).current_index <= old(self).entries@.len(),
        ensures
            final(self).entries == old(self).entries,
            final(self).max_entries == old(self).max_entries,
            old(self).well_formed() ==> final(self).well_formed(),
            match back_index(old(self).entries@.len() as int, old(self).current_index as int) {
                Some(i) => final(self).current_index == i && r == Some(
                    old(self).entries@[i].target,
                ),
                None => final(self).current_index == old(self).current_index && r is None,
            },
    {
        if self.current_index > 0 && self.entries.len() > 0 {
            self.current_index = self.current_index - 1;
            Some(self.entries[self.current_index].target.duplicate())
        } else {
            None
        }
    }

    /// Step forward one entry, returning the target there.
    pub fn go_forward(&mut self) -> (r: Option<NavigationTarget>)
        requires
            old(self).current_index < usize::MAX,
        ensures
            final(self).entries == old(self).entries,
            final(self).max_entries == old(self).max_entries,
            old(self).well_formed() ==> final(self).well_formed(),
            match forward_index(old(self).entries@.len() as int, old(self).current_index as int) {
                Some(i) => final(self).current_index == i && r == Some(
                    old(self).entries@[i].target,
                ),
                None => final(self).current_index == old(self).current_index && r is None,
            },
    {
        let len = self.entries.len();
        if len > 0 && self.current_index < len - 1 {
            self.current_index = self.current_index + 1;
            Some(self.entries[self.current_index].target.duplicate())
        } else {
            None
        }
    }
}

impl Default for NavigationHistory {
    fn default() -> (h: NavigationHistory)
        ensures
            h.entries@.len() == 0,
            h.current_index == 0,
            h.max_entries == 50,
    {
        NavigationHistory::new()
    }
}

/// Going back and then forward returns to the entry the user was at.
pub proof fn lemma_back_then_forward(len: int, current: int)
    requires
        0 <= current < len,
        back_index(len, current) is Some,
    ensures
        forward_index(len, back_index(len, current)->0) == Some(current),
{
}

/// Going forward and then back returns to the entry the user was at.
pub proof fn lemma_forward_then_back(len: int, current: int)
    requires
        0 <= current < len,
        forward_index(len, current) is Some,
    ensures
        back_index(len, forward_index(len, current)->0) == Some(current),
{
}

/// After a visit is recorded there is nothing to go forward to.
pub proof fn lemma_push_clears_forward(
    entries: Seq<NavigationPoint>,
    current: int,
    max: int,
    p: NavigationPoint,
)
    requires
        0 <= max,
        entries.len() > 0 ==> 0 <= current < entries.len(),
    ensures
        ({
            let kept = kept_before_push(entries, current);
            let after = capped(kept.push(p), max);
            let index = if after.len() > 0 {
                after.len() - 1
            } else {
                0
            };
            forward_index(after.len() as int, index) is None
        }),
        kept_before_push(entries, current).len() > 0 ==> forward_index(
            kept_before_push(entries, current).len() as int,
            current,
        ) is None,
{
}

} // verus!
