use aipix_core::history::{CanvasHistory, MAX_HISTORY_SIZE};

#[test]
fn test_undo_redo() {
    let mut history = CanvasHistory::new(10, 10);

    // Make a change
    history.push_state();
    history.buffer.set_pixel(5, 5, [255, 0, 0, 255]).unwrap();

    // Make another change
    history.push_state();
    history.buffer.set_pixel(6, 6, [0, 255, 0, 255]).unwrap();

    // Undo
    assert!(history.can_undo());
    history.undo().unwrap();

    // Check pixel was reverted
    assert_eq!(history.buffer.get_pixel(6, 6).unwrap(), [0, 0, 0, 0]);

    // Redo
    assert!(history.can_redo());
    history.redo().unwrap();

    // Check pixel was restored
    assert_eq!(history.buffer.get_pixel(6, 6).unwrap(), [0, 255, 0, 255]);
}

#[test]
fn test_history_limit() {
    let mut history = CanvasHistory::new(10, 10);

    // Add more than MAX_HISTORY_SIZE states
    for i in 0..(MAX_HISTORY_SIZE + 10) {
        history.push_state();
        history.buffer.set_pixel(0, 0, [i as u8, 0, 0, 255]).unwrap();
    }

    // Should not exceed max size
    assert!(history.undo_count() <= MAX_HISTORY_SIZE);
}

#[test]
fn history_cap_is_exact() {
    let mut history = CanvasHistory::new(4, 4);
    for i in 0..(MAX_HISTORY_SIZE + 7) {
        history.push_state();
        history.buffer.set_pixel(0, 0, [i as u8, 0, 0, 255]).unwrap();
    }
    assert_eq!(history.undo_count(), MAX_HISTORY_SIZE);
}

#[test]
fn undo_restores_pre_edit_and_redo_post_edit() {
    let mut history = CanvasHistory::new(3, 3);
    history.buffer.set_pixel(1, 1, [9, 9, 9, 9]).unwrap();
    let before = history.buffer.data.clone();

    history.push_state();
    history.buffer.set_pixel(1, 1, [200, 100, 50, 255]).unwrap();
    let after = history.buffer.data.clone();

    history.undo().unwrap();
    assert_eq!(history.buffer.data, before);
    history.redo().unwrap();
    assert_eq!(history.buffer.data, after);
}

#[test]
fn undo_on_empty_history_fails() {
    let mut history = CanvasHistory::new(2, 2);
    assert!(!history.can_undo());
    assert!(!history.can_redo());
    assert!(history.undo().is_err());
    assert!(history.redo().is_err());
    assert_eq!(history.redo_count(), 0);
}

#[test]
fn push_state_clears_redo() {
    let mut history = CanvasHistory::new(2, 2);
    history.push_state();
    history.buffer.set_pixel(0, 0, [1, 2, 3, 4]).unwrap();
    history.undo().unwrap();
    assert!(history.can_redo());
    history.push_state();
    assert!(!history.can_redo());
    history.clear_history();
    assert!(!history.can_undo());
}
