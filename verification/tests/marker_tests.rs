use fresh_core::marker::MarkerEntry;
use fresh_core::marker::MarkerList;

#[test]
fn test_new_marker_list() {
    let list = MarkerList::new();
    assert_eq!(list.entries().len(), 1);
    assert!(matches!(list.entries()[0], MarkerEntry::Gap(0)));
    assert_eq!(list.marker_count(), 0);
    list.check_invariants().unwrap();
}

#[test]
fn test_create_marker_at_start() {
    let mut list = MarkerList::new();

    let m1 = list.create(0, true);
    assert_eq!(list.marker_count(), 1);
    assert_eq!(list.get_position(m1), Some(0));
    list.check_invariants().unwrap();

    assert_eq!(list.entries().len(), 3);
}

#[test]
fn test_create_multiple_markers() {
    let mut list = MarkerList::new();

    list.set_buffer_size(20);

    let m1 = list.create(5, true);
    let m2 = list.create(15, false);

    assert_eq!(list.get_position(m1), Some(5));
    assert_eq!(list.get_position(m2), Some(15));
    list.check_invariants().unwrap();
}

#[test]
fn test_insert_before_marker() {
    let mut list = MarkerList::new();
    list.set_buffer_size(20);

    let m1 = list.create(10, true);
    assert_eq!(list.get_position(m1), Some(10));

    list.adjust_for_insert(5, 5);

    assert_eq!(list.get_position(m1), Some(15));
    assert_eq!(list.buffer_size(), 25);
    list.check_invariants().unwrap();
}

#[test]
fn test_insert_after_marker() {
    let mut list = MarkerList::new();
    list.set_buffer_size(20);

    let m1 = list.create(10, true);
    assert_eq!(list.get_position(m1), Some(10));

    list.adjust_for_insert(15, 5);

    assert_eq!(list.get_position(m1), Some(10));
    assert_eq!(list.buffer_size(), 25);
    list.check_invariants().unwrap();
}

#[test]
fn test_insert_at_marker_left_affinity() {
    let mut list = MarkerList::new();
    list.set_buffer_size(20);

    let m1 = list.create(10, true);

    list.adjust_for_insert(10, 5);

    assert_eq!(list.get_position(m1), Some(10));
    assert_eq!(list.buffer_size(), 25);
    list.check_invariants().unwrap();
}

#[test]
fn test_insert_at_marker_right_affinity() {
    let mut list = MarkerList::new();
    list.set_buffer_size(20);

    let m1 = list.create(10, false);

    list.adjust_for_insert(10, 5);

    assert_eq!(list.get_position(m1), Some(15));
    assert_eq!(list.buffer_size(), 25);
    list.check_invariants().unwrap();
}

#[test]
fn test_delete_before_marker() {
    let mut list = MarkerList::new();
    list.set_buffer_size(20);

    let m1 = list.create(15, true);
    assert_eq!(list.get_position(m1), Some(15));

    list.adjust_for_delete(5, 5);

    assert_eq!(list.get_position(m1), Some(10));
    assert_eq!(list.buffer_size(), 15);
    list.check_invariants().unwrap();
}

#[test]
fn test_delete_after_marker() {
    let mut list = MarkerList::new();
    list.set_buffer_size(20);

    let m1 = list.create(10, true);
    assert_eq!(list.get_position(m1), Some(10));

    list.adjust_for_delete(15, 5);

    assert_eq!(list.get_position(m1), Some(10));
    assert_eq!(list.buffer_size(), 15);
    list.check_invariants().unwrap();
}

#[test]
fn test_delete_marker() {
    let mut list = MarkerList::new();
    list.set_buffer_size(20);

    let m1 = list.create(10, true);

    list.adjust_for_delete(10, 5);

    assert_eq!(list.get_position(m1), None);
    assert_eq!(list.marker_count(), 0);
    list.check_invariants().unwrap();
}

#[test]
fn test_delete_multiple_markers() {
    let mut list = MarkerList::new();
    list.set_buffer_size(30);

    let m1 = list.create(10, true);
    let m2 = list.create(15, true);
    let m3 = list.create(20, true);

    list.adjust_for_delete(8, 10);

    assert_eq!(list.get_position(m1), None);
    assert_eq!(list.get_position(m2), None);
    assert_eq!(list.get_position(m3), Some(10));
    assert_eq!(list.marker_count(), 1);
    list.check_invariants().unwrap();
}

#[test]
fn test_complex_scenario() {
    let mut list = MarkerList::new();
    list.set_buffer_size(100);

    let m1 = list.create(10, true);
    let m2 = list.create(20, true);
    let m3 = list.create(30, true);

    list.adjust_for_insert(15, 5);
    assert_eq!(list.get_position(m1), Some(10));
    assert_eq!(list.get_position(m2), Some(25));
    assert_eq!(list.get_position(m3), Some(35));

    list.adjust_for_delete(12, 8);
    assert_eq!(list.get_position(m1), Some(10));
    assert_eq!(list.get_position(m2), Some(17));
    assert_eq!(list.get_position(m3), Some(27));

    list.check_invariants().unwrap();
}

#[test]
fn test_marker_deletion_with_delete_method() {
    let mut list = MarkerList::new();
    list.set_buffer_size(20);

    let m1 = list.create(10, true);
    let m2 = list.create(15, false);

    list.delete(m1);

    assert_eq!(list.get_position(m1), None);
    assert_eq!(list.get_position(m2), Some(15));
    assert_eq!(list.marker_count(), 1);
    list.check_invariants().unwrap();
}

#[test]
fn invariants_hold_across_edit_sequences() {
    let mut list = MarkerList::new();
    list.set_buffer_size(100);
    let markers = [
        list.create(0, true),
        list.create(20, false),
        list.create(40, true),
        list.create(60, false),
        list.create(80, true),
    ];

    let edits: [(bool, usize, usize); 8] = [
        (true, 10, 7),
        (false, 5, 12),
        (true, 0, 3),
        (false, 50, 30),
        (true, 55, 9),
        (false, 0, 1),
        (true, 61, 2),
        (false, 30, 25),
    ];
    let mut expected_size: usize = 100;
    for (is_insert, pos, len) in edits {
        if is_insert {
            let p = pos.min(list.buffer_size());
            list.adjust_for_insert(p, len);
            expected_size += len;
        } else {
            let p = pos.min(list.buffer_size());
            let l = len.min(list.buffer_size() - p);
            list.adjust_for_delete(p, l);
            expected_size -= l;
        }
        // The structure must stay well formed after every operation, and
        // the gap sizes must keep summing to the tracked buffer size.
        list.check_invariants().unwrap();
        assert_eq!(list.buffer_size(), expected_size);
        assert!(matches!(list.entries()[0], MarkerEntry::Gap(_)));
        assert!(matches!(
            list.entries()[list.entries().len() - 1],
            MarkerEntry::Gap(_)
        ));
        for w in list.entries().windows(2) {
            assert!(!(matches!(w[0], MarkerEntry::Gap(_)) && matches!(w[1], MarkerEntry::Gap(_))));
        }
        // Surviving markers keep their relative order.
        let positions: Vec<usize> = markers.iter().filter_map(|&m| list.get_position(m)).collect();
        for w in positions.windows(2) {
            assert!(w[0] <= w[1]);
        }
    }
}

#[test]
fn create_clamps_past_the_end() {
    let mut list = MarkerList::new();
    list.set_buffer_size(10);
    let m = list.create(50, true);
    assert_eq!(list.get_position(m), Some(10));
    list.check_invariants().unwrap();
}

#[test]
fn insert_past_the_end_changes_nothing() {
    let mut list = MarkerList::new();
    list.set_buffer_size(10);
    list.adjust_for_insert(11, 5);
    assert_eq!(list.buffer_size(), 10);
    list.check_invariants().unwrap();
}

#[test]
fn delete_overlapping_the_end_clamps() {
    let mut list = MarkerList::new();
    list.set_buffer_size(10);
    list.adjust_for_delete(6, 100);
    assert_eq!(list.buffer_size(), 6);
    list.check_invariants().unwrap();
}

#[test]
fn delete_absent_marker_is_a_no_op() {
    let mut list = MarkerList::new();
    list.set_buffer_size(10);
    let m = list.create(5, true);
    list.delete(m);
    list.delete(m);
    assert_eq!(list.marker_count(), 0);
    assert_eq!(list.buffer_size(), 10);
    list.check_invariants().unwrap();
}
