use fresh_core::dropdown::CellRect;
use fresh_core::dropdown::DropdownLayout;
use fresh_core::dropdown::DropdownState;
use fresh_core::dropdown::FocusState;
use fresh_core::popup::PopupListItem;

#[test]
fn test_dropdown_selection() {
    let mut state = DropdownState::new(
        vec!["A".to_string(), "B".to_string(), "C".to_string()],
        "Test".to_string(),
    );

    assert_eq!(state.selected, 0);
    state.select_next();
    assert_eq!(state.selected, 1);
    state.select_next();
    assert_eq!(state.selected, 2);
    state.select_next();
    assert_eq!(state.selected, 0);

    state.select_prev();
    assert_eq!(state.selected, 2);
}

#[test]
fn test_dropdown_select_by_index() {
    let mut state = DropdownState::new(
        vec!["A".to_string(), "B".to_string(), "C".to_string()],
        "Test".to_string(),
    );
    state.open = true;
    state.select(2);
    assert_eq!(state.selected, 2);
    assert!(!state.open);
}

#[test]
fn test_dropdown_disabled() {
    let mut state = DropdownState::new(vec!["A".to_string(), "B".to_string()], "Test".to_string())
        .with_focus(FocusState::Disabled);

    state.toggle_open();
    assert!(!state.open);

    state.select_next();
    assert_eq!(state.selected, 0);
}

#[test]
fn test_dropdown_cancel_restores_original() {
    let mut state = DropdownState::new(
        vec!["A".to_string(), "B".to_string(), "C".to_string()],
        "Test".to_string(),
    )
    .with_selected(1);

    state.toggle_open();
    assert!(state.open);
    assert_eq!(state.selected, 1);

    state.select_next();
    assert_eq!(state.selected, 2);

    state.cancel();
    assert!(!state.open);
    assert_eq!(state.selected, 1);
}

#[test]
fn test_dropdown_confirm_commits_selection() {
    let mut state = DropdownState::new(
        vec!["A".to_string(), "B".to_string(), "C".to_string()],
        "Test".to_string(),
    )
    .with_selected(0);

    state.toggle_open();
    assert!(state.open);

    state.select_next();
    assert_eq!(state.selected, 1);

    state.confirm();
    assert!(!state.open);
    assert_eq!(state.selected, 1);
}

#[test]
fn test_dropdown_toggle_close_confirms() {
    let mut state = DropdownState::new(
        vec!["A".to_string(), "B".to_string(), "C".to_string()],
        "Test".to_string(),
    )
    .with_selected(0);

    state.toggle_open();
    assert!(state.open);

    state.select_next();
    assert_eq!(state.selected, 1);

    state.toggle_open();
    assert!(!state.open);
    assert_eq!(state.selected, 1);
}

#[test]
fn dropdown_values_are_separate_from_names() {
    let state = DropdownState::with_values(
        vec!["Dark".to_string(), "Light".to_string()],
        vec!["dark".to_string(), "light".to_string()],
        "Theme".to_string(),
    )
    .with_selected(1);
    assert_eq!(state.selected_option(), Some("Light"));
    assert_eq!(state.selected_value(), Some("light"));
    assert_eq!(state.index_of_value("dark"), Some(0));
    assert_eq!(state.index_of_value("sepia"), None);
}

#[test]
fn test_popup_list_item() {
    let item = PopupListItem::new("test".to_string())
        .with_detail("detail".to_string())
        .with_icon("\u{1F4C4}".to_string());

    assert_eq!(item.text, "test");
    assert_eq!(item.detail, Some("detail".to_string()));
    assert_eq!(item.icon, Some("\u{1F4C4}".to_string()));
}

#[test]
fn popup_list_item_carries_data() {
    let item = PopupListItem::new("entry".to_string()).with_data("payload".to_string());
    assert_eq!(item.data.as_deref(), Some("payload"));
    assert!(item.detail.is_none());
}

#[test]
fn dropdown_layout_hit_testing() {
    let mut layout = DropdownLayout::new();
    layout.button_area = CellRect { x: 2, y: 1, width: 10, height: 1 };
    layout.full_area = CellRect { x: 2, y: 1, width: 10, height: 4 };
    layout.option_areas.push(CellRect { x: 2, y: 2, width: 10, height: 1 });
    layout.option_areas.push(CellRect { x: 2, y: 3, width: 10, height: 1 });

    assert!(layout.is_button(5, 1));
    assert!(!layout.is_button(5, 2));
    assert_eq!(layout.option_at(5, 3), Some(1));
    assert_eq!(layout.option_at(5, 2), Some(0));
    assert_eq!(layout.option_at(30, 2), None);
    assert!(layout.contains(11, 4));
    assert!(!layout.contains(12, 4));
}
