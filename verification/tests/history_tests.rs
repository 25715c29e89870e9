use mohe_ji::history::UndoHistory;

#[test]
fn undo_and_redo_walk_snapshots() {
    let mut h: UndoHistory<u32> = UndoHistory::new();
    let mut doc = 1u32;
    h.push_undo_document(doc);
    doc = 2;
    h.push_undo_document(doc);
    doc = 3;
    assert!(h.undo(&mut doc));
    assert_eq!(doc, 2);
    assert!(h.undo(&mut doc));
    assert_eq!(doc, 1);
    assert!(!h.undo(&mut doc));
    assert_eq!(doc, 1);
    assert!(h.redo(&mut doc));
    assert_eq!(doc, 2);
    assert!(h.redo(&mut doc));
    assert_eq!(doc, 3);
    assert!(!h.redo(&mut doc));
}

#[test]
fn push_clears_redo() {
    let mut h: UndoHistory<u32> = UndoHistory::new();
    let mut doc = 1u32;
    h.push_undo_document(0);
    assert!(h.undo(&mut doc));
    assert_eq!(h.redo_len(), 1);
    h.push_undo_document(5);
    assert_eq!(h.redo_len(), 0);
}

#[test]
fn history_is_bounded() {
    let mut h: UndoHistory<u32> = UndoHistory::new();
    for i in 0..150u32 {
        h.push_undo_document(i);
    }
    assert_eq!(h.undo_len(), 100);
    let mut doc = 999u32;
    assert!(h.undo(&mut doc));
    assert_eq!(doc, 149);
}

#[test]
fn canvas_edit_commit_and_cancel() {
    let mut h: UndoHistory<u32> = UndoHistory::new();
    h.begin_canvas_edit(7);
    assert!(h.has_pending_edit());
    h.begin_canvas_edit(8);
    assert!(h.commit_canvas_edit());
    assert!(!h.commit_canvas_edit());
    let mut doc = 9u32;
    assert!(h.undo(&mut doc));
    assert_eq!(doc, 7);
    h.begin_canvas_edit(1);
    h.cancel_canvas_edit();
    assert!(!h.has_pending_edit());
    assert_eq!(h.undo_len(), 0);
}

#[test]
fn discard_last_undo_pops() {
    let mut h: UndoHistory<u32> = UndoHistory::new();
    assert_eq!(h.discard_last_undo(), None);
    h.push_undo_document(4);
    h.push_undo_document(5);
    assert_eq!(h.discard_last_undo(), Some(5));
    assert_eq!(h.undo_len(), 1);
}

#[test]
fn committed_drag_is_undone_to_its_start() {
    let mut h: UndoHistory<u32> = UndoHistory::new();
    h.push_undo_document(1);
    let mut doc = 2u32;
    assert!(h.undo(&mut doc));
    assert_eq!(h.redo_len(), 1);
    h.begin_canvas_edit(doc);
    doc = 40;
    assert!(h.commit_canvas_edit());
    assert_eq!(h.redo_len(), 0);
    assert_eq!(h.undo_len(), 1);
    assert!(h.undo(&mut doc));
    assert_eq!(doc, 1);
}
