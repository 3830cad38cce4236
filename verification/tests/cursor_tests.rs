use fresh_core::cursor::Cursor;
use fresh_core::cursor::Cursors;

#[test]
fn test_cursor_new() {
    let cursor = Cursor::new(5);
    assert_eq!(cursor.position, 5);
    assert!(cursor.collapsed());
    assert_eq!(cursor.selection_range(), None);
}

#[test]
fn test_cursor_with_selection() {
    let cursor = Cursor::with_selection(5, 10);
    assert_eq!(cursor.position, 10);
    assert!(!cursor.collapsed());
    assert_eq!(cursor.selection_range(), Some(5..10));
}

#[test]
fn test_cursor_move_to() {
    let mut cursor = Cursor::new(5);
    cursor.move_to(10, false);
    assert_eq!(cursor.position, 10);
    assert!(cursor.collapsed());

    cursor.move_to(15, true);
    assert_eq!(cursor.position, 15);
    assert_eq!(cursor.selection_range(), Some(10..15));
}

#[test]
fn test_cursor_adjust_for_edit() {
    let mut cursor = Cursor::new(10);

    cursor.adjust_for_edit(5, 0, 3);
    assert_eq!(cursor.position, 13);

    cursor.adjust_for_edit(20, 5, 2);
    assert_eq!(cursor.position, 13);
}

#[test]
fn test_cursors_new() {
    let cursors = Cursors::new();
    assert_eq!(cursors.count(), 1);
    assert_eq!(cursors.primary().position, 0);
}

#[test]
fn test_cursors_add_remove() {
    let mut cursors = Cursors::new();
    let id = cursors.add(Cursor::new(10));
    assert_eq!(cursors.count(), 2);
    assert_eq!(cursors.get(id).unwrap().position, 10);

    cursors.remove(id);
    assert_eq!(cursors.count(), 1);
}

#[test]
fn test_cursors_remove_secondary() {
    let mut cursors = Cursors::new();
    cursors.add(Cursor::new(10));
    cursors.add(Cursor::new(20));
    assert_eq!(cursors.count(), 3);

    cursors.remove_secondary();
    assert_eq!(cursors.count(), 1);
}

#[test]
fn test_cursors_normalize() {
    let mut cursors = Cursors::new();
    cursors.add(Cursor::new(10));
    cursors.add(Cursor::new(10));

    cursors.normalize();
    assert_eq!(cursors.count(), 2);
}

#[test]
fn edit_overlapping_cursor_snaps_to_replacement_end() {
    let mut cursor = Cursor::new(10);
    cursor.adjust_for_edit(8, 5, 2);
    assert_eq!(cursor.position, 10);

    let mut inside = Cursor::new(9);
    inside.adjust_for_edit(8, 5, 2);
    assert_eq!(inside.position, 10);
}

#[test]
fn anchor_adjusts_independently() {
    let mut cursor = Cursor::with_selection(5, 20);
    cursor.adjust_for_edit(0, 0, 4);
    assert_eq!(cursor.position, 24);
    assert_eq!(cursor.selection_range(), Some(9..24));
}

#[test]
fn selection_endpoints_normalize() {
    let mut cursor = Cursor::new(3);
    cursor.set_anchor(8);
    assert_eq!(cursor.selection_start(), 3);
    assert_eq!(cursor.selection_end(), 8);
    assert_eq!(cursor.selection_range(), Some(3..8));
    cursor.clear_selection();
    assert!(cursor.collapsed());
}

#[test]
fn normalize_sorts_by_selection_start() {
    let mut cursors = Cursors::new();
    cursors.add(Cursor::new(30));
    cursors.add(Cursor::new(5));
    cursors.normalize();

    let list = cursors.iter();
    for pair in list.windows(2) {
        assert!(pair[0].1.selection_start() <= pair[1].1.selection_start());
    }
    assert_eq!(cursors.count(), 3);
}

#[test]
fn removing_the_last_cursor_is_rejected() {
    let mut cursors = Cursors::new();
    let only = cursors.primary_id();
    assert!(cursors.remove(only).is_none());
    assert_eq!(cursors.count(), 1);
}

#[test]
fn removing_the_primary_promotes_a_survivor() {
    let mut cursors = Cursors::new();
    let second = cursors.add(Cursor::new(7));
    assert_eq!(cursors.primary_id(), second);
    cursors.remove(second);
    assert_eq!(cursors.primary().position, 0);
}

#[test]
fn adjust_for_edit_moves_every_cursor() {
    let mut cursors = Cursors::new();
    cursors.add(Cursor::new(10));
    cursors.add(Cursor::new(20));
    cursors.adjust_for_edit(5, 0, 3);

    let positions = cursors.positions();
    assert!(positions.contains(&3) || positions.contains(&0));
    assert!(positions.contains(&13));
    assert!(positions.contains(&23));
}

#[test]
fn selections_reports_active_ranges() {
    let mut cursors = Cursors::new();
    cursors.add(Cursor::with_selection(2, 6));
    let ranges = cursors.selections();
    assert_eq!(ranges, vec![2..6]);
}
