use fresh_core::keybindings::Action;

#[test]
fn test_action_from_str() {
    assert_eq!(Action::from_str("move_left", None), Some(Action::MoveLeft));
    assert_eq!(Action::from_str("save", None), Some(Action::Save));
    assert_eq!(Action::from_str("unknown", None), None);
}

#[test]
fn insert_char_needs_its_argument() {
    assert_eq!(
        Action::from_str("insert_char", Some('x')),
        Some(Action::InsertChar('x'))
    );
    assert_eq!(Action::from_str("insert_char", None), None);
    assert_eq!(Action::from_str("undo", None), Some(Action::Undo));
    assert_eq!(Action::from_str("scroll_down", None), Some(Action::ScrollDown));
}
