use md_editor::ink_history::InkHistory;

type History = InkHistory<(i32, i32)>;

fn page_with(n: usize) -> (History, Vec<u64>) {
    let mut h = History::new();
    let ids = (0..n).map(|_| h.push()).collect();
    (h, ids)
}

#[test]
fn a_new_stroke_is_undone_and_redone() {
    let mut h = History::new();
    assert!(!h.can_undo());
    let id = h.push();
    assert_eq!(h.strokes(), &vec![id]);
    assert!(h.undo().is_some());
    assert!(h.is_empty());
    assert!(h.can_redo());
    assert!(h.redo().is_some());
    assert_eq!(h.strokes(), &vec![id]);
    assert!(h.undo().is_some());
    assert!(h.undo().is_none());
}

#[test]
fn an_edit_after_undo_drops_the_redo_branch() {
    let (mut h, ids) = page_with(2);
    h.undo();
    assert!(h.can_redo());
    let c = h.push();
    assert!(!h.can_redo());
    assert!(h.redo().is_none());
    assert_eq!(h.strokes(), &vec![ids[0], c]);
}

#[test]
fn erasing_and_undoing_restores_the_stacking_order() {
    let (mut h, ids) = page_with(5);
    assert!(h.erase_marked(&vec![false, true, false, true, true]));
    assert_eq!(h.strokes(), &vec![ids[0], ids[2]]);
    h.undo();
    assert_eq!(h.strokes(), &ids);
    h.redo();
    assert_eq!(h.strokes(), &vec![ids[0], ids[2]]);
}

#[test]
fn an_erase_that_hits_nothing_is_not_an_edit() {
    let (mut h, ids) = page_with(2);
    h.undo();
    assert!(!h.erase_marked(&vec![false]));
    assert!(h.can_redo());
    assert_eq!(h.strokes(), &vec![ids[0]]);
}

#[test]
fn removing_listed_strokes_is_one_undo_step() {
    let (mut h, ids) = page_with(4);
    assert!(h.remove_strokes(&vec![3, 1, 3, 9]));
    assert_eq!(h.strokes(), &vec![ids[0], ids[2]]);
    h.undo();
    assert_eq!(h.strokes(), &ids);
    assert!(!h.remove_strokes(&vec![]));
    assert!(!h.remove_strokes(&vec![7]));
}

#[test]
fn clearing_is_one_step_and_an_empty_page_stays_unedited() {
    let (mut h, ids) = page_with(3);
    assert!(h.clear());
    assert!(h.is_empty());
    h.undo();
    assert_eq!(h.strokes(), &ids);
    let mut blank = History::new();
    assert!(!blank.clear());
    assert!(!blank.can_undo());
}

#[test]
fn moves_are_handed_back_to_undo_and_redo() {
    let (mut h, ids) = page_with(3);
    assert!(!h.record_move(&vec![], (1, 1)));
    assert!(h.record_move(&vec![2, 0, 5], (4, -2)));
    let back = h.undo().unwrap();
    assert_eq!(back.len(), 1);
    assert_eq!(back[0].ids, vec![ids[2], ids[0]]);
    assert_eq!(back[0].delta, (4, -2));
    assert!(back[0].backwards);
    let again = h.redo().unwrap();
    assert_eq!(again.len(), 1);
    assert!(!again[0].backwards);
    assert_eq!(h.strokes(), &ids);
}

#[test]
fn a_partial_erase_splits_and_undoes_to_the_whole_stroke() {
    let (mut h, ids) = page_with(3);
    let next = h.next_id();
    let splits = h.erase_partial(&vec![None, Some(2), None]);
    assert_eq!(splits, vec![(1, next)]);
    assert_eq!(h.strokes(), &vec![ids[0], next, next + 1, ids[2]]);
    h.undo();
    assert_eq!(h.strokes(), &ids);
    h.redo();
    assert_eq!(h.strokes(), &vec![ids[0], next, next + 1, ids[2]]);
}

#[test]
fn a_partial_erase_can_remove_a_stroke_whole() {
    let (mut h, ids) = page_with(2);
    let next = h.next_id();
    let splits = h.erase_partial(&vec![Some(0), Some(1)]);
    assert_eq!(splits, vec![(1, next), (0, next + 1)]);
    assert_eq!(h.strokes(), &vec![next]);
    h.undo();
    assert_eq!(h.strokes(), &vec![ids[0], next]);
    h.undo();
    assert_eq!(h.strokes(), &ids);
}

#[test]
fn a_gesture_undoes_and_redoes_as_one_step() {
    let (mut h, ids) = page_with(4);
    h.begin_batch();
    h.erase_marked(&vec![false, true, false, false]);
    h.begin_batch();
    let next = h.next_id();
    h.erase_partial(&vec![None, Some(2), None]);
    h.erase_marked(&vec![true, false, false, false]);
    h.end_batch();
    assert_eq!(h.strokes(), &vec![next, next + 1, ids[3]]);
    h.undo();
    assert_eq!(h.strokes(), &ids);
    assert!(h.can_undo());
    h.redo();
    assert_eq!(h.strokes(), &vec![next, next + 1, ids[3]]);
}

#[test]
fn a_gesture_that_changed_nothing_leaves_no_entry() {
    let (mut h, _) = page_with(1);
    h.undo();
    h.begin_batch();
    h.erase_marked(&vec![]);
    h.end_batch();
    assert!(!h.can_undo());
    assert!(h.can_redo());
}

#[test]
fn a_page_read_from_disk_has_no_history() {
    let h = History::with_strokes(3);
    assert_eq!(h.strokes(), &vec![0, 1, 2]);
    assert_eq!(h.next_id(), 3);
    assert!(!h.can_undo() && !h.can_redo());
}
