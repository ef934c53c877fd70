//! The edit history of an ink page: which strokes the page holds, bottom to
//! top, and how every edit is undone and redone.
//!
//! Strokes are named by ids; their pen samples are floating point and stay
//! with the caller, which draws, hit-tests and moves them. The history decides
//! the order of the strokes and which edits an undo or a redo replays; it
//! hands moves back to the caller to apply to the strokes it names.

use vstd::prelude::*;

verus! {

// ---------------------------------------------------------------------------
// The order of the strokes under each kind of edit
// ---------------------------------------------------------------------------

/// Put `e.1` back at position `e.0`, or at the end when the page holds fewer
/// strokes than that.
pub open spec fn insert_at(o: Seq<u64>, e: (usize, u64)) -> Seq<u64> {
    let at = if e.0 <= o.len() {
        e.0 as int
    } else {
        o.len() as int
    };
    o.insert(at, e.1)
}

/// Put erased strokes back, in the order they are listed.
pub open spec fn reinserted(o: Seq<u64>, removed: Seq<(usize, u64)>) -> Seq<u64>
    decreases removed.len(),
{
    if removed.len() == 0 {
        o
    } else {
        insert_at(reinserted(o, removed.drop_last()), removed.last())
    }
}

/// Remove the stroke at position `i`, if there is one.
pub open spec fn remove_if_present(o: Seq<u64>, i: usize) -> Seq<u64> {
    if i < o.len() {
        o.remove(i as int)
    } else {
        o
    }
}

/// Erase the listed positions again, the last listed first.
pub open spec fn removed_again(o: Seq<u64>, removed: Seq<(usize, u64)>) -> Seq<u64>
    decreases removed.len(),
{
    if removed.len() == 0 {
        o
    } else {
        removed_again(remove_if_present(o, removed.last().0), removed.drop_last())
    }
}

/// The marked strokes among the first `n`, with their positions, lowest
/// first.
pub open spec fn picked(o: Seq<u64>, marks: Seq<bool>, n: nat) -> Seq<(usize, u64)>
    decreases n,
{
    if n == 0 {
        seq![]
    } else {
        let r = picked(o, marks, (n - 1) as nat);
        if marks[n - 1] {
            r.push(((n - 1) as usize, o[n - 1]))
        } else {
            r
        }
    }
}

/// The unmarked strokes among the first `n`, in order.
pub open spec fn unpicked(o: Seq<u64>, marks: Seq<bool>, n: nat) -> Seq<u64>
    decreases n,
{
    if n == 0 {
        seq![]
    } else {
        let r = unpicked(o, marks, (n - 1) as nat);
        if marks[n - 1] {
            r
        } else {
            r.push(o[n - 1])
        }
    }
}

/// Put the stroke `whole` back in place of the fragments a partial erase
/// left at `index`, within the page.
pub open spec fn unsplit(o: Seq<u64>, index: usize, whole: u64, fragments: nat) -> Seq<u64> {
    let end = if index + fragments <= o.len() {
        index + fragments
    } else {
        o.len() as int
    };
    if index <= end {
        o.take(index as int).push(whole) + o.skip(end)
    } else {
        o
    }
}

/// Replace the stroke at `index` by `fragments`, when there is one.
pub open spec fn split(o: Seq<u64>, index: usize, fragments: Seq<u64>) -> Seq<u64> {
    if index < o.len() {
        o.take(index as int) + fragments + o.skip(index + 1)
    } else {
        o
    }
}

// ---------------------------------------------------------------------------
// Facts about those orders
// ---------------------------------------------------------------------------

proof fn lemma_reinserted_len(o: Seq<u64>, r: Seq<(usize, u64)>)
    ensures
        reinserted(o, r).len() == o.len() + r.len(),
    decreases r.len(),
{
    if r.len() > 0 {
        lemma_reinserted_len(o, r.drop_last());
    }
}

proof fn lemma_picked_counts(o: Seq<u64>, marks: Seq<bool>, n: nat)
    ensures
        picked(o, marks, n).len() + unpicked(o, marks, n).len() == n,
        forall|k: int|
            0 <= k < picked(o, marks, n).len() ==> #[trigger] picked(o, marks, n)[k].0 <= unpicked(
                o,
                marks,
                n,
            ).len() + k,
        forall|k: int|
            0 <= k < picked(o, marks, n).len() ==> #[trigger] picked(o, marks, n)[k].0 + (picked(
                o,
                marks,
                n,
            ).len() - 1 - k) < n,
    decreases n,
{
    if n > 0 {
        lemma_picked_counts(o, marks, (n - 1) as nat);
        let p = picked(o, marks, (n - 1) as nat);
        let u = unpicked(o, marks, (n - 1) as nat);
        if marks[n - 1] {
            assert forall|k: int|
                0 <= k < picked(o, marks, n).len() implies #[trigger] picked(o, marks, n)[k].0
                <= unpicked(o, marks, n).len() + k by {
                if k < p.len() {
                    assert(picked(o, marks, n)[k] == p[k]);
                }
            }
            assert forall|k: int|
                0 <= k < picked(o, marks, n).len() implies #[trigger] picked(o, marks, n)[k].0 + (
                picked(o, marks, n).len() - 1 - k) < n by {
                if k < p.len() {
                    assert(picked(o, marks, n)[k] == p[k]);
                }
            }
        }
    }
}

proof fn lemma_reinsert_push(s: Seq<u64>, x: u64, r: Seq<(usize, u64)>)
    requires
        forall|k: int| 0 <= k < r.len() ==> #[trigger] r[k].0 <= s.len() + k,
    ensures
        reinserted(s.push(x), r) == reinserted(s, r).push(x),
    decreases r.len(),
{
    if r.len() > 0 {
        let d = r.drop_last();
        assert forall|k: int| 0 <= k < d.len() implies #[trigger] d[k].0 <= s.len() + k by {
            assert(d[k] == r[k]);
        }
        lemma_reinsert_push(s, x, d);
        lemma_reinserted_len(s, d);
        let t = reinserted(s, d);
        let e = r.last();
        assert(e.0 <= t.len());
        assert(t.push(x).insert(e.0 as int, e.1) =~= t.insert(e.0 as int, e.1).push(x));
    }
}

proof fn lemma_remove_push(s: Seq<u64>, x: u64, r: Seq<(usize, u64)>)
    requires
        forall|k: int| 0 <= k < r.len() ==> #[trigger] r[k].0 + (r.len() - 1 - k) < s.len(),
    ensures
        removed_again(s.push(x), r) == removed_again(s, r).push(x),
    decreases r.len(),
{
    if r.len() > 0 {
        let d = r.drop_last();
        let i = r.last().0;
        assert(r[r.len() - 1].0 + 0 < s.len());
        let s2 = s.remove(i as int);
        assert(remove_if_present(s.push(x), i) =~= s2.push(x));
        assert(remove_if_present(s, i) == s2);
        assert forall|k: int| 0 <= k < d.len() implies #[trigger] d[k].0 + (d.len() - 1 - k)
            < s2.len() by {
            assert(d[k] == r[k]);
        }
        lemma_remove_push(s2, x, d);
    }
}

/// Putting back the marked strokes of the first `n` restores them.
proof fn lemma_picked_reinserted(o: Seq<u64>, marks: Seq<bool>, n: nat)
    requires
        n <= o.len(),
        n <= marks.len(),
        n <= usize::MAX,
    ensures
        reinserted(unpicked(o, marks, n), picked(o, marks, n)) == o.take(n as int),
        removed_again(o.take(n as int), picked(o, marks, n)) == unpicked(o, marks, n),
    decreases n,
{
    if n == 0 {
        assert(o.take(0) =~= Seq::<u64>::empty());
    } else {
        let m = (n - 1) as nat;
        lemma_picked_reinserted(o, marks, m);
        lemma_picked_counts(o, marks, m);
        let p = picked(o, marks, m);
        let u = unpicked(o, marks, m);
        let x = o[m as int];
        assert(o.take(n as int) =~= o.take(m as int).push(x));
        assert(o.take(m as int).len() == m);
        if marks[m as int] {
            let e = ((n - 1) as usize, o[n - 1]);
            assert(picked(o, marks, n) == p.push(e));
            assert(unpicked(o, marks, n) == u);
            assert(p.push(e).drop_last() =~= p);
            assert(reinserted(u, p.push(e)) == insert_at(reinserted(u, p), e));
            assert(e.0 == m);
            assert(o.take(m as int).insert(m as int, x) =~= o.take(n as int));
            assert(removed_again(o.take(n as int), p.push(e)) == removed_again(
                remove_if_present(o.take(n as int), e.0),
                p,
            ));
            assert(o.take(n as int).remove(m as int) =~= o.take(m as int));
        } else {
            assert(picked(o, marks, n) == p);
            assert(unpicked(o, marks, n) == u.push(x));
            lemma_reinsert_push(u, x, p);
            assert forall|k: int| 0 <= k < p.len() implies #[trigger] p[k].0 + (p.len() - 1 - k)
                < o.take(m as int).len() by {}
            lemma_remove_push(o.take(m as int), x, p);
        }
    }
}

proof fn lemma_split_unsplit(o: Seq<u64>, index: usize, fragments: Seq<u64>)
    requires
        index < o.len(),
    ensures
        unsplit(split(o, index, fragments), index, o[index as int], fragments.len()) == o,
{
    let s = split(o, index, fragments);
    assert(s.len() == o.len() - 1 + fragments.len());
    assert(s.take(index as int) =~= o.take(index as int));
    assert(s.skip(index + fragments.len()) =~= o.skip(index + 1));
    assert(o.take(index as int).push(o[index as int]) + o.skip(index + 1) =~= o);
}

// ---------------------------------------------------------------------------
// Edits
// ---------------------------------------------------------------------------

/// One reversible edit.
pub enum InkEdit<D> {
    /// A stroke was added on top.
    Added(u64),
    /// Strokes were erased, listed with the positions they held, lowest
    /// first.
    Erased(Vec<(usize, u64)>),
    /// Strokes were moved by `delta`.
    Moved { ids: Vec<u64>, delta: D },
    /// The stroke `whole` at `index` was replaced by the fragments a
    /// partial erase left of it.
    Replaced { index: usize, whole: u64, fragments: Vec<u64> },
}

/// An edit as values.
pub enum EditView<D> {
    Added(u64),
    Erased(Seq<(usize, u64)>),
    Moved { ids: Seq<u64>, delta: D },
    Replaced { index: usize, whole: u64, fragments: Seq<u64> },
}

impl<D> View for InkEdit<D> {
    type V = EditView<D>;

    open spec fn view(&self) -> EditView<D> {
        match self {
            InkEdit::Added(id) => EditView::Added(*id),
            InkEdit::Erased(removed) => EditView::Erased(removed@),
            InkEdit::Moved { ids, delta } => EditView::Moved { ids: ids@, delta: *delta },
            InkEdit::Replaced { index, whole, fragments } => EditView::Replaced {
                index: *index,
                whole: *whole,
                fragments: fragments@,
            },
        }
    }
}

/// The edits of a history entry, as values.
pub open spec fn entry_view<D>(entry: Seq<InkEdit<D>>) -> Seq<EditView<D>> {
    entry.map_values(|e: InkEdit<D>| e@)
}

/// The entries of a stack, as values.
pub open spec fn stack_view<D>(stack: Seq<Vec<InkEdit<D>>>) -> Seq<Seq<EditView<D>>> {
    stack.map_values(|entry: Vec<InkEdit<D>>| entry_view(entry@))
}

/// The order of the strokes after undoing one edit.
pub open spec fn undo_edit<D>(o: Seq<u64>, e: EditView<D>) -> Seq<u64> {
    match e {
        EditView::Added(_) => if o.len() > 0 {
            o.drop_last()
        } else {
            o
        },
        EditView::Erased(removed) => reinserted(o, removed),
        EditView::Moved { .. } => o,
        EditView::Replaced { index, whole, fragments } => unsplit(
            o,
            index,
            whole,
            fragments.len(),
        ),
    }
}

/// The order of the strokes after redoing one edit.
pub open spec fn redo_edit<D>(o: Seq<u64>, e: EditView<D>) -> Seq<u64> {
    match e {
        EditView::Added(id) => o.push(id),
        EditView::Erased(removed) => removed_again(o, removed),
        EditView::Moved { .. } => o,
        EditView::Replaced { index, fragments, .. } => split(o, index, fragments),
    }
}

/// The order after undoing an entry: its edits, the last first.
pub open spec fn undo_entry<D>(o: Seq<u64>, entry: Seq<EditView<D>>) -> Seq<u64>
    decreases entry.len(),
{
    if entry.len() == 0 {
        o
    } else {
        undo_entry(undo_edit(o, entry.last()), entry.drop_last())
    }
}

/// The order after redoing an entry: its edits, the first first.
pub open spec fn redo_entry<D>(o: Seq<u64>, entry: Seq<EditView<D>>) -> Seq<u64>
    decreases entry.len(),
{
    if entry.len() == 0 {
        o
    } else {
        redo_edit(redo_entry(o, entry.drop_last()), entry.last())
    }
}

/// A move to apply to the named strokes: by `delta`, or against it.
pub open spec fn moves_undone<D>(entry: Seq<EditView<D>>) -> Seq<(Seq<u64>, D, bool)>
    decreases entry.len(),
{
    if entry.len() == 0 {
        seq![]
    } else {
        let rest = moves_undone(entry.drop_last());
        match entry.last() {
            EditView::Moved { ids, delta } => seq![(ids, delta, true)] + rest,
            _ => rest,
        }
    }
}

/// The moves a redo of the entry replays, in order.
pub open spec fn moves_redone<D>(entry: Seq<EditView<D>>) -> Seq<(Seq<u64>, D, bool)>
    decreases entry.len(),
{
    if entry.len() == 0 {
        seq![]
    } else {
        let rest = moves_redone(entry.drop_last());
        match entry.last() {
            EditView::Moved { ids, delta } => rest.push((ids, delta, false)),
            _ => rest,
        }
    }
}

/// An edit that was made to the order `before` and left `after`: undoing it
/// gives back `before` and redoing it gives `after` again.
pub open spec fn reversible<D>(before: Seq<u64>, e: EditView<D>, after: Seq<u64>) -> bool {
    undo_edit(after, e) == before && redo_edit(before, e) == after
}

/// An entry made of reversible edits, from `before` to `after`.
pub open spec fn reversible_entry<D>(before: Seq<u64>, entry: Seq<EditView<D>>, after: Seq<u64>) -> bool {
    undo_entry(after, entry) == before && redo_entry(before, entry) == after
}

/// A gesture gathers edits one by one: an entry that leads from `before` to
/// `mid`, followed by an edit that leads on to `after`, leads from `before`
/// to `after` as a whole, both ways.
pub proof fn lemma_entry_grows<D>(
    before: Seq<u64>,
    entry: Seq<EditView<D>>,
    mid: Seq<u64>,
    e: EditView<D>,
    after: Seq<u64>,
)
    requires
        reversible_entry(before, entry, mid),
        reversible(mid, e, after),
    ensures
        reversible_entry(before, entry.push(e), after),
{
    assert(entry.push(e).drop_last() =~= entry);
}

/// Adding a stroke on top is undone by taking it off again.
pub proof fn lemma_added_reversible<D>(o: Seq<u64>, id: u64)
    ensures
        reversible(o, EditView::<D>::Added(id), o.push(id)),
{
    assert(o.push(id).drop_last() =~= o);
}

/// Erasing the marked strokes is undone by putting them back where they
/// stood, and redone by erasing them again.
pub proof fn lemma_erased_reversible<D>(o: Seq<u64>, marks: Seq<bool>)
    requires
        marks.len() == o.len(),
        o.len() <= usize::MAX,
    ensures
        reversible(
            o,
            EditView::<D>::Erased(picked(o, marks, o.len())),
            unpicked(o, marks, o.len()),
        ),
{
    lemma_picked_reinserted(o, marks, o.len());
    assert(o.take(o.len() as int) =~= o);
}

/// Splitting a stroke into fragments is undone by putting the stroke back.
pub proof fn lemma_replaced_reversible<D>(o: Seq<u64>, index: usize, fragments: Seq<u64>)
    requires
        index < o.len(),
    ensures
        reversible(
            o,
            EditView::<D>::Replaced { index, whole: o[index as int], fragments },
            split(o, index, fragments),
        ),
{
    lemma_split_unsplit(o, index, fragments);
}

/// A move leaves the order of the strokes as it is.
pub proof fn lemma_moved_reversible<D>(o: Seq<u64>, ids: Seq<u64>, delta: D)
    ensures
        reversible(o, EditView::Moved { ids, delta }, o),
{
}


proof fn lemma_all_picked(o: Seq<u64>, n: nat)
    requires
        n <= o.len(),
    ensures
        picked(o, all_marked(o.len()), n).len() == n,
    decreases n,
{
    if n > 0 {
        lemma_all_picked(o, (n - 1) as nat);
    }
}

// ---------------------------------------------------------------------------
// The history
// ---------------------------------------------------------------------------

/// A move handed back by an undo or a redo: the strokes `ids` are to be
/// moved by `delta`, or against it when `backwards`.
pub struct StrokeMove<D> {
    pub ids: Vec<u64>,
    pub delta: D,
    pub backwards: bool,
}

/// A move as values.
pub open spec fn stroke_move_view<D>(t: StrokeMove<D>) -> (Seq<u64>, D, bool) {
    (t.ids@, t.delta, t.backwards)
}

/// The history as values.
#[verifier::ext_equal]
pub struct HistoryView<D> {
    /// The ids of the strokes on the page, bottom to top.
    pub order: Seq<u64>,
    /// The id the next new stroke gets.
    pub next_id: u64,
    /// Entries that can be undone, the most recent last.
    pub undo: Seq<Seq<EditView<D>>>,
    /// Entries that can be redone, the most recently undone last.
    pub redo: Seq<Seq<EditView<D>>>,
    /// The edits of the gesture in progress, if one is.
    pub pending: Option<Seq<EditView<D>>>,
}

/// The strokes of an ink page and the history of its edits.
pub struct InkHistory<D> {
    order: Vec<u64>,
    next_id: u64,
    undo_stack: Vec<Vec<InkEdit<D>>>,
    redo_stack: Vec<Vec<InkEdit<D>>>,
    pending: Option<Vec<InkEdit<D>>>,
}

impl<D> View for InkHistory<D> {
    type V = HistoryView<D>;

    closed spec fn view(&self) -> HistoryView<D> {
        HistoryView {
            order: self.order@,
            next_id: self.next_id,
            undo: stack_view(self.undo_stack@),
            redo: stack_view(self.redo_stack@),
            pending: match self.pending {
                Some(p) => Some(entry_view(p@)),
                None => None,
            },
        }
    }
}

/// After an edit was recorded: into the gesture in progress, or else as an
/// entry of its own; either way nothing is left to redo.
pub open spec fn recorded<D>(v: HistoryView<D>, e: EditView<D>) -> HistoryView<D> {
    match v.pending {
        Some(p) => HistoryView { redo: seq![], pending: Some(p.push(e)), ..v },
        None => HistoryView { redo: seq![], undo: v.undo.push(seq![e]), ..v },
    }
}

/// After a new stroke was added on top, under the next id.
pub open spec fn pushed<D>(v: HistoryView<D>) -> HistoryView<D> {
    recorded(
        HistoryView { order: v.order.push(v.next_id), next_id: (v.next_id + 1) as u64, ..v },
        EditView::Added(v.next_id),
    )
}

/// After erasing the marked strokes: nothing happens when none is marked.
pub open spec fn erased<D>(v: HistoryView<D>, marks: Seq<bool>) -> HistoryView<D> {
    let gone = picked(v.order, marks, v.order.len());
    if gone.len() == 0 {
        v
    } else {
        recorded(
            HistoryView { order: unpicked(v.order, marks, v.order.len()), ..v },
            EditView::Erased(gone),
        )
    }
}

/// The marks of the positions listed in `indices`.
pub open spec fn listed(n: nat, indices: Seq<usize>) -> Seq<bool> {
    Seq::new(n, |i: int| indices.contains(i as usize))
}

/// Every position marked.
pub open spec fn all_marked(n: nat) -> Seq<bool> {
    Seq::new(n, |i: int| true)
}

/// The ids of the strokes at the listed positions that the page has, in the
/// order listed.
pub open spec fn ids_at(o: Seq<u64>, indices: Seq<usize>) -> Seq<u64>
    decreases indices.len(),
{
    if indices.len() == 0 {
        seq![]
    } else {
        let rest = ids_at(o, indices.drop_last());
        let i = indices.last();
        if i < o.len() {
            rest.push(o[i as int])
        } else {
            rest
        }
    }
}

/// After a gesture began: edits gather until it ends; a gesture already in
/// progress goes on.
pub open spec fn begun<D>(v: HistoryView<D>) -> HistoryView<D> {
    match v.pending {
        Some(_) => v,
        None => HistoryView { pending: Some(seq![]), ..v },
    }
}

/// After a gesture ended: its edits become one entry, and a gesture that
/// changed nothing leaves none.
pub open spec fn ended<D>(v: HistoryView<D>) -> HistoryView<D> {
    match v.pending {
        None => v,
        Some(p) => if p.len() == 0 {
            HistoryView { pending: None, ..v }
        } else {
            HistoryView { pending: None, undo: v.undo.push(p), ..v }
        },
    }
}

/// After an undo: the latest entry is undone and can be redone.
pub open spec fn undone<D>(v: HistoryView<D>) -> HistoryView<D> {
    if v.undo.len() == 0 {
        v
    } else {
        HistoryView {
            order: undo_entry(v.order, v.undo.last()),
            undo: v.undo.drop_last(),
            redo: v.redo.push(v.undo.last()),
            ..v
        }
    }
}

/// After a redo: the latest undone entry is redone and can be undone again.
pub open spec fn redone<D>(v: HistoryView<D>) -> HistoryView<D> {
    if v.redo.len() == 0 {
        v
    } else {
        HistoryView {
            order: redo_entry(v.order, v.redo.last()),
            redo: v.redo.drop_last(),
            undo: v.undo.push(v.redo.last()),
            ..v
        }
    }
}

proof fn lemma_stack_push<D>(s: Seq<Vec<InkEdit<D>>>, x: Vec<InkEdit<D>>)
    ensures
        stack_view(s.push(x)) == stack_view(s).push(entry_view(x@)),
{
    assert(stack_view(s.push(x)) =~= stack_view(s).push(entry_view(x@)));
}

proof fn lemma_stack_pop<D>(s: Seq<Vec<InkEdit<D>>>)
    requires
        s.len() > 0,
    ensures
        stack_view(s.drop_last()) == stack_view(s).drop_last(),
        stack_view(s).last() == entry_view(s.last()@),
{
    assert(stack_view(s.drop_last()) =~= stack_view(s).drop_last());
}

proof fn lemma_entry_push<D>(s: Seq<InkEdit<D>>, e: InkEdit<D>)
    ensures
        entry_view(s.push(e)) == entry_view(s).push(e@),
{
    assert(entry_view(s.push(e)) =~= entry_view(s).push(e@));
}

/// `count` fresh ids, from `start` on.
pub open spec fn fresh_ids(start: u64, count: nat) -> Seq<u64> {
    Seq::new(count, |j: int| (start + j) as u64)
}

/// After the stroke at `index` was split into `count` fragments under fresh
/// ids.
pub open spec fn split_step<D>(v: HistoryView<D>, index: usize, count: nat) -> HistoryView<D> {
    let f = fresh_ids(v.next_id, count);
    recorded(
        HistoryView {
            order: split(v.order, index, f),
            next_id: (v.next_id + count) as u64,
            ..v
        },
        EditView::Replaced { index, whole: v.order[index as int], fragments: f },
    )
}

/// The number of fragments asked for among the first `n` strokes.
pub open spec fn fragment_total(counts: Seq<Option<usize>>, n: nat) -> nat
    decreases n,
{
    if n == 0 {
        0
    } else {
        fragment_total(counts, (n - 1) as nat) + match counts[n - 1] {
            Some(k) => k as nat,
            None => 0,
        }
    }
}

/// After a partial erase of the first `n` strokes, the topmost first: each
/// stroke with a fragment count is replaced by that many fragments, each as
/// an edit of its own.
pub open spec fn partially_erased<D>(v: HistoryView<D>, counts: Seq<Option<usize>>, n: nat) -> HistoryView<D>
    decreases n,
{
    if n == 0 {
        v
    } else {
        let w = match counts[n - 1] {
            Some(k) => split_step(v, (n - 1) as usize, k as nat),
            None => v,
        };
        partially_erased(w, counts, (n - 1) as nat)
    }
}

/// The strokes a partial erase of the first `n` strokes splits, the topmost
/// first, each with the first id of its fragments.
pub open spec fn splits_made(counts: Seq<Option<usize>>, n: nat, next: u64) -> Seq<(usize, u64)>
    decreases n,
{
    if n == 0 {
        seq![]
    } else {
        match counts[n - 1] {
            Some(k) => seq![((n - 1) as usize, next)] + splits_made(
                counts,
                (n - 1) as nat,
                (next + k) as u64,
            ),
            None => splits_made(counts, (n - 1) as nat, next),
        }
    }
}

/// Moves as values.
pub open spec fn stroke_moves_view<D>(m: Seq<StrokeMove<D>>) -> Seq<(Seq<u64>, D, bool)> {
    m.map_values(|t: StrokeMove<D>| stroke_move_view(t))
}

fn spliced(o: &Vec<u64>, index: usize, middle: &Vec<u64>, end: usize) -> (r: Vec<u64>)
    requires
        index <= end <= o@.len(),
    ensures
        r@ == o@.take(index as int) + middle@ + o@.skip(end as int),
{
    let mut r: Vec<u64> = Vec::new();
    let mut i: usize = 0;
    while i < index
        invariant
            i <= index <= end <= o@.len(),
            r@ == o@.take(i as int),
        decreases index - i,
    {
        r.push(o[i]);
        assert(o@.take(i + 1) =~= o@.take(i as int).push(o@[i as int]));
        i = i + 1;
    }
    let mut j: usize = 0;
    while j < middle.len()
        invariant
            j <= middle@.len(),
            r@ == o@.take(index as int) + middle@.take(j as int),
        decreases middle@.len() - j,
    {
        r.push(middle[j]);
        assert(middle@.take(j + 1) =~= middle@.take(j as int).push(middle@[j as int]));
        j = j + 1;
    }
    assert(middle@.take(j as int) =~= middle@);
    let mut k: usize = end;
    while k < o.len()
        invariant
            end <= k <= o@.len(),
            r@ == o@.take(index as int) + middle@ + o@.subrange(end as int, k as int),
        decreases o@.len() - k,
    {
        r.push(o[k]);
        assert(o@.subrange(end as int, k + 1) =~= o@.subrange(end as int, k as int).push(o@[k as int]));
        k = k + 1;
    }
    assert(o@.subrange(end as int, k as int) =~= o@.skip(end as int));
    r
}

fn undo_one<D: Copy>(o: &mut Vec<u64>, e: &InkEdit<D>)
    ensures
        final(o)@ == undo_edit(old(o)@, e@),
{
    match e {
        InkEdit::Added(_) => {
            if o.len() > 0 {
                o.pop();
            }
        },
        InkEdit::Erased(removed) => {
            let ghost start = o@;
            let mut m: usize = 0;
            while m < removed.len()
                invariant
                    m <= removed@.len(),
                    o@ == reinserted(start, removed@.take(m as int)),
                decreases removed@.len() - m,
            {
                assert(removed@.take(m + 1).drop_last() =~= removed@.take(m as int));
                let (index, id) = removed[m];
                let at = if index <= o.len() {
                    index
                } else {
                    o.len()
                };
                o.insert(at, id);
                m = m + 1;
            }
            assert(removed@.take(m as int) =~= removed@);
        },
        InkEdit::Moved { .. } => {},
        InkEdit::Replaced { index, whole, fragments } => {
            let len = o.len();
            let index = *index;
            let end = if index <= len && fragments.len() <= len - index {
                index + fragments.len()
            } else {
                len
            };
            if index <= end {
                let mut one: Vec<u64> = Vec::new();
                one.push(*whole);
                let r = spliced(o, index, &one, end);
                assert(r@ =~= o@.take(index as int).push(*whole) + o@.skip(end as int));
                *o = r;
            }
        },
    }
}

fn redo_one<D: Copy>(o: &mut Vec<u64>, e: &InkEdit<D>)
    ensures
        final(o)@ == redo_edit(old(o)@, e@),
{
    match e {
        InkEdit::Added(id) => {
            o.push(*id);
        },
        InkEdit::Erased(removed) => {
            let ghost start = o@;
            let mut m: usize = removed.len();
            assert(removed@.take(m as int) =~= removed@);
            while m > 0
                invariant
                    m <= removed@.len(),
                    removed_again(start, removed@) == removed_again(o@, removed@.take(m as int)),
                decreases m,
            {
                assert(removed@.take(m as int).drop_last() =~= removed@.take(m - 1));
                let index = removed[m - 1].0;
                if index < o.len() {
                    o.remove(index);
                }
                m = m - 1;
            }
        },
        InkEdit::Moved { .. } => {},
        InkEdit::Replaced { index, fragments, .. } => {
            let index = *index;
            if index < o.len() {
                let r = spliced(o, index, fragments, index + 1);
                *o = r;
            }
        },
    }
}

fn copy_ids(v: &Vec<u64>) -> (r: Vec<u64>)
    ensures
        r@ == v@,
{
    let mut r: Vec<u64> = Vec::new();
    let mut i: usize = 0;
    while i < v.len()
        invariant
            i <= v@.len(),
            r@ == v@.take(i as int),
        decreases v@.len() - i,
    {
        r.push(v[i]);
        assert(v@.take(i + 1) =~= v@.take(i as int).push(v@[i as int]));
        i = i + 1;
    }
    assert(v@.take(i as int) =~= v@);
    r
}

impl<D: Copy> InkHistory<D> {
    /// A blank page with no history.
    pub fn new() -> (h: InkHistory<D>)
        ensures
            h@.order == Seq::<u64>::empty(),
            h@.next_id == 0,
            h@.undo == Seq::<Seq<EditView<D>>>::empty(),
            h@.redo == Seq::<Seq<EditView<D>>>::empty(),
            h@.pending is None,
    {
        let h = InkHistory {
            order: Vec::new(),
            next_id: 0,
            undo_stack: Vec::new(),
            redo_stack: Vec::new(),
            pending: None,
        };
        assert(stack_view(h.undo_stack@) =~= Seq::<Seq<EditView<D>>>::empty());
        assert(stack_view(h.redo_stack@) =~= Seq::<Seq<EditView<D>>>::empty());
        h
    }

    /// A page that already holds `count` strokes, with ids `0` to
    /// `count - 1` bottom to top, and no history: a page read from disk.
    pub fn with_strokes(count: u64) -> (h: InkHistory<D>)
        ensures
            h@.order == fresh_ids(0, count as nat),
            h@.next_id == count,
            h@.undo == Seq::<Seq<EditView<D>>>::empty(),
            h@.redo == Seq::<Seq<EditView<D>>>::empty(),
            h@.pending is None,
    {
        let mut h = InkHistory::new();
        let mut i: u64 = 0;
        while i < count
            invariant
                i <= count,
                h@.order == fresh_ids(0, i as nat),
                h@.next_id == i,
                h@.undo == Seq::<Seq<EditView<D>>>::empty(),
                h@.redo == Seq::<Seq<EditView<D>>>::empty(),
                h@.pending is None,
            decreases count - i,
        {
            h.order.push(i);
            h.next_id = i + 1;
            assert(h@.order =~= fresh_ids(0, (i + 1) as nat));
            i = i + 1;
        }
        h
    }

    /// The id the next new stroke or fragment gets.
    pub fn next_id(&self) -> (r: u64)
        ensures
            r == self@.next_id,
    {
        self.next_id
    }

    /// The ids of the strokes on the page, bottom to top.
    pub fn strokes(&self) -> (r: &Vec<u64>)
        ensures
            r@ == self@.order,
    {
        &self.order
    }

    /// Whether the page holds no stroke.
    pub fn is_empty(&self) -> (r: bool)
        ensures
            r == (self@.order.len() == 0),
    {
        self.order.len() == 0
    }

    /// Whether there is an edit to undo.
    pub fn can_undo(&self) -> (r: bool)
        ensures
            r == (self@.undo.len() > 0),
    {
        self.undo_stack.len() > 0
    }

    /// Whether there is an undone edit to redo.
    pub fn can_redo(&self) -> (r: bool)
        ensures
            r == (self@.redo.len() > 0),
    {
        self.redo_stack.len() > 0
    }

    /// Start gathering edits into one gesture, undone as one step. A
    /// gesture already in progress goes on.
    pub fn begin_batch(&mut self)
        ensures
            final(self)@ == begun(old(self)@),
    {
        if self.pending.is_none() {
            self.pending = Some(Vec::new());
            assert(entry_view(Seq::<InkEdit<D>>::empty()) =~= Seq::<EditView<D>>::empty());
        }
    }

    /// End the gesture in progress: its edits become one history entry, and
    /// a gesture that changed nothing leaves none.
    pub fn end_batch(&mut self)
        ensures
            final(self)@ == ended(old(self)@),
    {
        match self.pending.take() {
            None => {},
            Some(ops) => {
                if ops.len() > 0 {
                    proof {
                        lemma_stack_push(self.undo_stack@, ops);
                    }
                    self.undo_stack.push(ops);
                }
            },
        }
    }

    /// Record an edit: into the gesture in progress, or as an entry of its
    /// own. Any new edit abandons what could be redone.
    fn record(&mut self, e: InkEdit<D>)
        ensures
            final(self)@ == recorded(old(self)@, e@),
    {
        self.redo_stack = Vec::new();
        assert(stack_view(self.redo_stack@) =~= Seq::<Seq<EditView<D>>>::empty());
        match self.pending.take() {
            Some(mut p) => {
                proof {
                    lemma_entry_push(p@, e);
                }
                p.push(e);
                self.pending = Some(p);
            },
            None => {
                let mut entry: Vec<InkEdit<D>> = Vec::new();
                proof {
                    lemma_entry_push(entry@, e);
                    assert(entry_view(entry@) =~= Seq::<EditView<D>>::empty());
                }
                entry.push(e);
                proof {
                    lemma_stack_push(self.undo_stack@, entry);
                }
                self.undo_stack.push(entry);
            },
        }
    }

    /// Erase the marked strokes as one edit; `marks` has one entry per
    /// stroke, bottom to top. Returns whether any stroke went.
    pub fn erase_marked(&mut self, marks: &Vec<bool>) -> (changed: bool)
        requires
            marks@.len() == old(self)@.order.len(),
        ensures
            final(self)@ == erased(old(self)@, marks@),
            changed == (picked(old(self)@.order, marks@, old(self)@.order.len()).len() > 0),
    {
        let ghost o = self.order@;
        let mut kept: Vec<u64> = Vec::new();
        let mut gone: Vec<(usize, u64)> = Vec::new();
        let mut i: usize = 0;
        while i < self.order.len()
            invariant
                self.order@ == o,
                marks@.len() == o.len(),
                i <= o.len(),
                kept@ == unpicked(o, marks@, i as nat),
                gone@ == picked(o, marks@, i as nat),
            decreases o.len() - i,
        {
            if marks[i] {
                gone.push((i, self.order[i]));
            } else {
                kept.push(self.order[i]);
            }
            i = i + 1;
        }
        if gone.len() == 0 {
            return false;
        }
        self.order = kept;
        self.record(InkEdit::Erased(gone));
        true
    }

    /// Remove the strokes at the listed positions as one edit; positions the
    /// page does not have are passed over. Returns whether any stroke went.
    pub fn remove_strokes(&mut self, indices: &Vec<usize>) -> (changed: bool)
        ensures
            indices@.len() == 0 ==> final(self)@ == old(self)@ && !changed,
            indices@.len() > 0 ==> final(self)@ == erased(
                old(self)@,
                listed(old(self)@.order.len(), indices@),
            ) && changed == (picked(
                old(self)@.order,
                listed(old(self)@.order.len(), indices@),
                old(self)@.order.len(),
            ).len() > 0),
    {
        if indices.len() == 0 {
            return false;
        }
        let mut marks: Vec<bool> = Vec::new();
        let mut i: usize = 0;
        while i < self.order.len()
            invariant
                i <= self.order@.len(),
                marks@ == listed(self.order@.len(), indices@).take(i as int),
            decreases self.order@.len() - i,
        {
            let mut hit = false;
            let mut k: usize = 0;
            while k < indices.len()
                invariant
                    k <= indices@.len(),
                    hit == indices@.take(k as int).contains(i),
                decreases indices@.len() - k,
            {
                proof {
                    assert(indices@.take(k + 1) =~= indices@.take(k as int).push(indices@[k as int]));
                }
                if indices[k] == i {
                    hit = true;
                }
                proof {
                    let s = indices@.take(k as int);
                    let s2 = indices@.take(k + 1);
                    if indices@[k as int] == i {
                        assert(s2[k as int] == i);
                    } else if s2.contains(i) {
                        let j = choose|j: int| 0 <= j < s2.len() && s2[j] == i;
                        assert(j < k);
                        assert(s[j] == i);
                    }
                    if s.contains(i) {
                        let j = choose|j: int| 0 <= j < s.len() && s[j] == i;
                        assert(s2[j] == i);
                    }
                }
                k = k + 1;
            }
            assert(indices@.take(k as int) =~= indices@);
            marks.push(hit);
            assert(marks@ =~= listed(self.order@.len(), indices@).take(i + 1));
            i = i + 1;
        }
        assert(marks@ =~= listed(self.order@.len(), indices@));
        self.erase_marked(&marks)
    }

    /// Erase every stroke as one edit. Returns whether the page held any.
    pub fn clear(&mut self) -> (changed: bool)
        ensures
            final(self)@ == erased(old(self)@, all_marked(old(self)@.order.len())),
            changed == (old(self)@.order.len() > 0),
    {
        let mut marks: Vec<bool> = Vec::new();
        let mut i: usize = 0;
        while i < self.order.len()
            invariant
                i <= self.order@.len(),
                marks@ == all_marked(self.order@.len()).take(i as int),
            decreases self.order@.len() - i,
        {
            marks.push(true);
            assert(marks@ =~= all_marked(self.order@.len()).take(i + 1));
            i = i + 1;
        }
        assert(marks@ =~= all_marked(self.order@.len()));
        proof {
            lemma_picked_counts(self.order@, marks@, self.order@.len());
            lemma_all_picked(self.order@, self.order@.len());
        }
        self.erase_marked(&marks)
    }

    /// Record a move by `delta` of the strokes at the listed positions, which
    /// the caller has already moved. Positions the page does not have are
    /// passed over; an empty list records nothing.
    pub fn record_move(&mut self, indices: &Vec<usize>, delta: D) -> (changed: bool)
        ensures
            indices@.len() == 0 ==> final(self)@ == old(self)@ && !changed,
            indices@.len() > 0 ==> changed && final(self)@ == recorded(
                old(self)@,
                EditView::Moved { ids: ids_at(old(self)@.order, indices@), delta },
            ),
    {
        if indices.len() == 0 {
            return false;
        }
        let mut ids: Vec<u64> = Vec::new();
        let mut k: usize = 0;
        while k < indices.len()
            invariant
                k <= indices@.len(),
                ids@ == ids_at(self.order@, indices@.take(k as int)),
            decreases indices@.len() - k,
        {
            proof {
                assert(indices@.take(k + 1).drop_last() =~= indices@.take(k as int));
            }
            let i = indices[k];
            if i < self.order.len() {
                ids.push(self.order[i]);
            }
            k = k + 1;
        }
        assert(indices@.take(k as int) =~= indices@);
        self.record(InkEdit::Moved { ids, delta });
        true
    }

    /// Rub out parts of strokes: `fragments` has one entry per stroke, bottom
    /// to top, with the number of pieces left of each stroke the eraser
    /// touched. From the top down, each such stroke is replaced by its pieces
    /// under fresh ids, as an edit of its own. Returns the strokes split, the
    /// topmost first, each with the first id of its pieces.
    pub fn erase_partial(&mut self, fragments: &Vec<Option<usize>>) -> (splits: Vec<(usize, u64)>)
        requires
            fragments@.len() == old(self)@.order.len(),
            old(self)@.next_id + fragment_total(fragments@, fragments@.len() as nat) <= u64::MAX,
        ensures
            final(self)@ == partially_erased(old(self)@, fragments@, fragments@.len() as nat),
            splits@ == splits_made(fragments@, fragments@.len() as nat, old(self)@.next_id),
    {
        let ghost v0 = self@;
        let n = fragments.len();
        let mut splits: Vec<(usize, u64)> = Vec::new();
        let mut i: usize = n;
        while i > 0
            invariant
                i <= n,
                n == fragments@.len(),
                i <= self@.order.len(),
                partially_erased(v0, fragments@, n as nat) == partially_erased(
                    self@,
                    fragments@,
                    i as nat,
                ),
                splits_made(fragments@, n as nat, v0.next_id) == splits@ + splits_made(
                    fragments@,
                    i as nat,
                    self@.next_id,
                ),
                self@.next_id + fragment_total(fragments@, i as nat) <= u64::MAX,
            decreases i,
        {
            let idx = i - 1;
            match fragments[idx] {
                Some(k) => {
                    let first = self.next_id;
                    let mut pieces: Vec<u64> = Vec::new();
                    let mut j: usize = 0;
                    while j < k
                        invariant
                            j <= k,
                            first + k <= u64::MAX,
                            pieces@ == fresh_ids(first, j as nat),
                        decreases k - j,
                    {
                        pieces.push(first + j as u64);
                        assert(pieces@ =~= fresh_ids(first, (j + 1) as nat));
                        j = j + 1;
                    }
                    let whole = self.order[idx];
                    let next = spliced(&self.order, idx, &pieces, idx + 1);
                    let ghost before = self@;
                    self.order = next;
                    self.next_id = first + k as u64;
                    self.record(InkEdit::Replaced { index: idx, whole, fragments: pieces });
                    proof {
                        assert(self@ == split_step(before, idx, k as nat));
                        assert(splits@.push((idx, first)) + splits_made(
                            fragments@,
                            idx as nat,
                            self@.next_id,
                        ) =~= splits@ + splits_made(fragments@, i as nat, first));
                    }
                    splits.push((idx, first));
                },
                None => {},
            }
            i = idx;
        }
        splits
    }

    /// Undo the latest entry. Returns `None` when there is nothing to undo,
    /// else the moves the caller is to reverse on its strokes, in order.
    pub fn undo(&mut self) -> (moves: Option<Vec<StrokeMove<D>>>)
        ensures
            final(self)@ == undone(old(self)@),
            old(self)@.undo.len() == 0 ==> moves is None,
            old(self)@.undo.len() > 0 ==> (moves matches Some(m) && stroke_moves_view(m@)
                == moves_undone(old(self)@.undo.last())),
    {
        let ghost v0 = self@;
        if self.undo_stack.len() == 0 {
            return None;
        }
        proof {
            lemma_stack_pop(self.undo_stack@);
        }
        let entry = self.undo_stack.pop().unwrap();
        let ghost e = entry_view(entry@);
        let ghost u = self.undo_stack@;
        let ghost r = self.redo_stack@;
        let ghost pend = self.pending;
        let mut moves: Vec<StrokeMove<D>> = Vec::new();
        let mut j: usize = entry.len();
        assert(e.take(j as int) =~= e);
        assert(stroke_moves_view(moves@) =~= Seq::<(Seq<u64>, D, bool)>::empty());
        while j > 0
            invariant
                j <= entry@.len(),
                e == entry_view(entry@),
                self.undo_stack@ == u,
                self.redo_stack@ == r,
                self.pending == pend,
                self.next_id == v0.next_id,
                undo_entry(v0.order, e) == undo_entry(self.order@, e.take(j as int)),
                moves_undone(e) == stroke_moves_view(moves@) + moves_undone(e.take(j as int)),
            decreases j,
        {
            let k = j - 1;
            assert(e.take(j as int).drop_last() =~= e.take(k as int));
            assert(e.take(j as int).last() == entry@[k as int]@);
            undo_one(&mut self.order, &entry[k]);
            match &entry[k] {
                InkEdit::Moved { ids, delta } => {
                    let t = StrokeMove { ids: copy_ids(ids), delta: *delta, backwards: true };
                    let ghost before = moves@;
                    moves.push(t);
                    assert(stroke_moves_view(moves@) =~= stroke_moves_view(before).push(
                        stroke_move_view(t),
                    ));
                },
                _ => {},
            }
            j = k;
        }
        assert(e.take(0) =~= Seq::<EditView<D>>::empty());
        assert(self.order@ == undo_entry(v0.order, v0.undo.last()));
        proof {
            lemma_stack_push(self.redo_stack@, entry);
        }
        self.redo_stack.push(entry);
        assert(self@ =~= undone(v0));
        Some(moves)
    }

    /// Redo the latest undone entry. Returns `None` when there is nothing to
    /// redo, else the moves the caller is to replay on its strokes, in order.
    pub fn redo(&mut self) -> (moves: Option<Vec<StrokeMove<D>>>)
        ensures
            final(self)@ == redone(old(self)@),
            old(self)@.redo.len() == 0 ==> moves is None,
            old(self)@.redo.len() > 0 ==> (moves matches Some(m) && stroke_moves_view(m@)
                == moves_redone(old(self)@.redo.last())),
    {
        let ghost v0 = self@;
        if self.redo_stack.len() == 0 {
            return None;
        }
        proof {
            lemma_stack_pop(self.redo_stack@);
        }
        let entry = self.redo_stack.pop().unwrap();
        let ghost e = entry_view(entry@);
        let ghost u = self.undo_stack@;
        let ghost r = self.redo_stack@;
        let ghost pend = self.pending;
        let mut moves: Vec<StrokeMove<D>> = Vec::new();
        let mut j: usize = 0;
        assert(stroke_moves_view(moves@) =~= Seq::<(Seq<u64>, D, bool)>::empty());
        assert(e.take(0) =~= Seq::<EditView<D>>::empty());
        while j < entry.len()
            invariant
                j <= entry@.len(),
                e == entry_view(entry@),
                self.undo_stack@ == u,
                self.redo_stack@ == r,
                self.pending == pend,
                self.next_id == v0.next_id,
                self.order@ == redo_entry(v0.order, e.take(j as int)),
                stroke_moves_view(moves@) == moves_redone(e.take(j as int)),
            decreases entry@.len() - j,
        {
            assert(e.take(j + 1).drop_last() =~= e.take(j as int));
            assert(e.take(j + 1).last() == entry@[j as int]@);
            redo_one(&mut self.order, &entry[j]);
            match &entry[j] {
                InkEdit::Moved { ids, delta } => {
                    let t = StrokeMove { ids: copy_ids(ids), delta: *delta, backwards: false };
                    let ghost before = moves@;
                    moves.push(t);
                    assert(stroke_moves_view(moves@) =~= stroke_moves_view(before).push(
                        stroke_move_view(t),
                    ));
                },
                _ => {},
            }
            j = j + 1;
        }
        assert(e.take(j as int) =~= e);
        assert(self.order@ == redo_entry(v0.order, v0.redo.last()));
        proof {
            lemma_stack_push(self.undo_stack@, entry);
        }
        self.undo_stack.push(entry);
        assert(self@ =~= redone(v0));
        Some(moves)
    }

    /// Add a new stroke on top; returns its id.
    pub fn push(&mut self) -> (id: u64)
        requires
            old(self)@.next_id < u64::MAX,
        ensures
            id == old(self)@.next_id,
            final(self)@ == pushed(old(self)@),
    {
        let id = self.next_id;
        self.order.push(id);
        self.next_id = id + 1;
        self.record(InkEdit::Added(id));
        id
    }
}

// ---------------------------------------------------------------------------
// Laws
// ---------------------------------------------------------------------------

/// Any edit clears what could be redone.
pub proof fn lemma_edit_clears_redo<D>(v: HistoryView<D>, e: EditView<D>)
    ensures
        recorded(v, e).redo.len() == 0,
{
}

/// An edit made outside a gesture is one step: undoing it gives back the
/// page as it was, with the edit ready to redo, and redoing it then gives
/// back the history as it stood after the edit.
pub proof fn lemma_edit_undo_redo<D>(v: HistoryView<D>, e: EditView<D>, after: Seq<u64>)
    requires
        v.pending is None,
        reversible(v.order, e, after),
    ensures
        ({
            let w = recorded(HistoryView { order: after, ..v }, e);
            &&& undone(w) == (HistoryView { redo: seq![seq![e]], ..v })
            &&& redone(undone(w)) == w
        }),
{
    let w = recorded(HistoryView { order: after, ..v }, e);
    let one = seq![e];
    assert(w.undo == v.undo.push(one));
    assert(w.redo == Seq::<Seq<EditView<D>>>::empty());
    assert(w.undo.last() == one);
    assert(one.drop_last() =~= Seq::<EditView<D>>::empty());
    assert(one.last() == e);
    assert(undo_entry(after, one) == undo_entry(undo_edit(after, e), one.drop_last()));
    assert(undo_entry(after, one) == v.order);
    assert(w.undo.drop_last() =~= v.undo);
    assert(Seq::<Seq<EditView<D>>>::empty().push(one) =~= seq![one]);
    let u = undone(w);
    assert(u.order == v.order);
    assert(u.undo == v.undo);
    assert(u.redo == seq![one]);
    assert(u =~= (HistoryView { redo: seq![seq![e]], ..v }));
    assert(u.redo.last() == one);
    assert(u.redo.drop_last() =~= Seq::<Seq<EditView<D>>>::empty());
    assert(redo_entry(v.order, one) == redo_edit(redo_entry(v.order, one.drop_last()), e));
    assert(redo_entry(v.order, one) == after);
    assert(v.undo.push(one) =~= w.undo);
    assert(redone(u) =~= w);
}

/// Undoing a stroke just added takes it off the page, and redoing puts it
/// back.
pub proof fn lemma_push_undo_redo<D>(v: HistoryView<D>)
    requires
        v.pending is None,
        v.next_id < u64::MAX,
    ensures
        undone(pushed(v)).order == v.order,
        undone(pushed(v)).redo.len() > 0,
        redone(undone(pushed(v))) == pushed(v),
{
    lemma_added_reversible::<D>(v.order, v.next_id);
    let v1 = HistoryView { next_id: (v.next_id + 1) as u64, ..v };
    lemma_edit_undo_redo(v1, EditView::Added(v.next_id), v.order.push(v.next_id));
    assert(HistoryView { order: v.order.push(v.next_id), ..v1 } == HistoryView {
        order: v.order.push(v.next_id),
        next_id: (v.next_id + 1) as u64,
        ..v
    });
}

/// Undoing an erase that took strokes off the page puts every one back
/// where it stood, in the same order, and redoing erases them again.
pub proof fn lemma_erase_undo_redo<D>(v: HistoryView<D>, marks: Seq<bool>)
    requires
        v.pending is None,
        marks.len() == v.order.len(),
        v.order.len() <= usize::MAX,
        picked(v.order, marks, v.order.len()).len() > 0,
    ensures
        undone(erased(v, marks)).order == v.order,
        undone(erased(v, marks)).redo.len() > 0,
        redone(undone(erased(v, marks))) == erased(v, marks),
{
    let gone = picked(v.order, marks, v.order.len());
    let rest = unpicked(v.order, marks, v.order.len());
    lemma_erased_reversible::<D>(v.order, marks);
    lemma_edit_undo_redo(v, EditView::Erased(gone), rest);
    assert(erased(v, marks) == recorded(HistoryView { order: rest, ..v }, EditView::Erased(gone)));
}

/// Undoing a partial erase of one stroke puts the whole stroke back in
/// place of its pieces, and redoing splits it again.
pub proof fn lemma_split_undo_redo<D>(v: HistoryView<D>, index: usize, count: nat)
    requires
        v.pending is None,
        index < v.order.len(),
        v.next_id + count <= u64::MAX,
    ensures
        undone(split_step(v, index, count)).order == v.order,
        undone(split_step(v, index, count)).redo.len() > 0,
        redone(undone(split_step(v, index, count))) == split_step(v, index, count),
{
    let f = fresh_ids(v.next_id, count);
    lemma_replaced_reversible::<D>(v.order, index, f);
    let v1 = HistoryView { next_id: (v.next_id + count) as u64, ..v };
    lemma_edit_undo_redo(
        v1,
        EditView::Replaced { index, whole: v.order[index as int], fragments: f },
        split(v.order, index, f),
    );
}

/// Undoing a recorded move leaves the order of the strokes alone and hands
/// the move back to be reversed; redoing hands it back to be replayed.
pub proof fn lemma_move_undo_redo<D>(v: HistoryView<D>, ids: Seq<u64>, delta: D)
    requires
        v.pending is None,
    ensures
        undone(recorded(v, EditView::Moved { ids, delta })).order == v.order,
        moves_undone(recorded(v, EditView::Moved { ids, delta }).undo.last()) == seq![
            (ids, delta, true),
        ],
        moves_redone(undone(recorded(v, EditView::Moved { ids, delta })).redo.last()) == seq![
            (ids, delta, false),
        ],
{
    let e = EditView::Moved { ids, delta };
    let one = seq![e];
    lemma_moved_reversible(v.order, ids, delta);
    lemma_edit_undo_redo(v, e, v.order);
    assert(HistoryView { order: v.order, ..v } == v);
    assert(one.drop_last() =~= Seq::<EditView<D>>::empty());
    assert(one.last() == e);
    assert(recorded(v, e).undo.last() == one);
    assert(undone(recorded(v, e)).redo.last() == one);
    assert(moves_undone(one) == seq![(ids, delta, true)] + moves_undone(one.drop_last()));
    assert(moves_redone(one) == moves_redone(one.drop_last()).push((ids, delta, false)));
    assert(seq![(ids, delta, true)] + Seq::<(Seq<u64>, D, bool)>::empty() =~= seq![
        (ids, delta, true),
    ]);
    assert(Seq::<(Seq<u64>, D, bool)>::empty().push((ids, delta, false)) =~= seq![
        (ids, delta, false),
    ]);
}

/// A gesture starts with nothing gathered, from the page as it stands.
pub proof fn lemma_gesture_starts<D>(v: HistoryView<D>)
    requires
        v.pending is None,
    ensures
        begun(v).pending == Some(Seq::<EditView<D>>::empty()),
        reversible_entry(v.order, Seq::<EditView<D>>::empty(), begun(v).order),
{
}

/// Each edit made during a gesture joins it, and the gesture as a whole
/// still leads from the page it started on to the page as it now stands.
pub proof fn lemma_gesture_gathers<D>(
    v: HistoryView<D>,
    start: Seq<u64>,
    e: EditView<D>,
    after: Seq<u64>,
)
    requires
        v.pending matches Some(p) && reversible_entry(start, p, v.order),
        reversible(v.order, e, after),
    ensures
        recorded(HistoryView { order: after, ..v }, e).pending matches Some(q)
            && reversible_entry(start, q, after),
        recorded(HistoryView { order: after, ..v }, e).undo == v.undo,
{
    lemma_entry_grows(start, v.pending->0, v.order, e, after);
}

/// A gesture that changed the page is undone as one step, back to the page
/// it started on, and redone as one step.
pub proof fn lemma_gesture_undo_redo<D>(v: HistoryView<D>, start: Seq<u64>)
    requires
        v.pending matches Some(p) && p.len() > 0 && reversible_entry(start, p, v.order),
    ensures
        ended(v).undo == v.undo.push(v.pending->0),
        undone(ended(v)).order == start,
        undone(ended(v)).redo.len() > 0,
        redone(undone(ended(v))).order == v.order,
        undone(ended(v)).undo == v.undo,
{
    let p = v.pending->0;
    assert(ended(v).undo.last() == p);
    assert(ended(v).undo.drop_last() =~= v.undo);
    assert(undone(ended(v)).redo.last() == p);
}

/// Undoing a removal of the strokes at listed positions puts them back where
/// they stood, and redoing removes them again.
pub proof fn lemma_remove_undo_redo<D>(v: HistoryView<D>, indices: Seq<usize>)
    requires
        v.pending is None,
        v.order.len() <= usize::MAX,
        picked(v.order, listed(v.order.len(), indices), v.order.len()).len() > 0,
    ensures
        undone(erased(v, listed(v.order.len(), indices))).order == v.order,
        undone(erased(v, listed(v.order.len(), indices))).redo.len() > 0,
        redone(undone(erased(v, listed(v.order.len(), indices)))) == erased(
            v,
            listed(v.order.len(), indices),
        ),
{
    lemma_erase_undo_redo(v, listed(v.order.len(), indices));
}

/// Undoing a clear of a page that held strokes puts them all back in their
/// order, and redoing clears the page again.
pub proof fn lemma_clear_undo_redo<D>(v: HistoryView<D>)
    requires
        v.pending is None,
        0 < v.order.len() <= usize::MAX,
    ensures
        undone(erased(v, all_marked(v.order.len()))).order == v.order,
        undone(erased(v, all_marked(v.order.len()))).redo.len() > 0,
        redone(undone(erased(v, all_marked(v.order.len())))) == erased(
            v,
            all_marked(v.order.len()),
        ),
{
    lemma_all_picked(v.order, v.order.len());
    lemma_erase_undo_redo(v, all_marked(v.order.len()));
}

} // verus!
