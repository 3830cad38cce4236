//! Popup window data: where a popup sits and what a selectable list item
//! carries.

use vstd::prelude::*;

verus! {

/// Position of a popup relative to a point in the buffer.
#[derive(Debug, Clone, Copy, PartialEq, Eq, Structural)]
pub enum PopupPosition {
    /// At the cursor position.
    AtCursor,
    /// Below the cursor position.
    BelowCursor,
    /// Above the cursor position.
    AboveCursor,
    /// Fixed screen coordinates.
    Fixed { x: u16, y: u16 },
    /// Centered on screen.
    Centered,
}

/// A selectable item in a popup list.
#[derive(Debug)]
pub struct PopupListItem {
    /// Main text to display.
    pub text: String,
    /// Optional secondary text (description, type info).
    pub detail: Option<String>,
    /// Optional icon or prefix.
    pub icon: Option<String>,
    /// User data associated with this item (for completion).
    pub data: Option<String>,
}

impl PopupListItem {
    /// An item showing `text`, with nothing else attached.
    pub fn new(text: String) -> (r: PopupListItem)
        ensures
            r.text == text,
            r.detail is None,
            r.icon is None,
            r.data is None,
    {
        PopupListItem { text, detail: None, icon: None, data: None }
    }

    /// The same item with a detail text.
    pub fn with_detail(self, detail: String) -> (r: PopupListItem)
        ensures
            r.text == self.text,
            r.detail == Some(detail),
            r.icon == self.icon,
            r.data == self.data,
    {
        PopupListItem { detail: Some(detail), ..self }
    }

    /// The same item with an icon.
    pub fn with_icon(self, icon: String) -> (r: PopupListItem)
        ensures
            r.text == self.text,
            r.detail == self.detail,
            r.icon == Some(icon),
            r.data == self.data,
    {
        PopupListItem { icon: Some(icon), ..self }
    }

    /// The same item with attached user data.
    pub fn with_data(self, data: String) -> (r: PopupListItem)
        ensures
            r.text == self.text,
            r.detail == self.detail,
            r.icon == self.icon,
            r.data == Some(data),
    {
        PopupListItem { data: Some(data), ..self }
    }
}

} // verus!
