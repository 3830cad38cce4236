//! High-level editor actions and the parsing of their configuration
//! names.

use crate::strutil::str_eq;
use vstd::prelude::*;

verus! {

/// High-level actions that can be performed in the editor.
#[derive(Debug, Clone, Copy, PartialEq, Eq, Structural)]
pub enum Action {
    // Character input
    InsertChar(char),
    InsertNewline,
    InsertTab,
    // Basic movement
    MoveLeft,
    MoveRight,
    MoveUp,
    MoveDown,
    MoveWordLeft,
    MoveWordRight,
    MoveLineStart,
    MoveLineEnd,
    MovePageUp,
    MovePageDown,
    MoveDocumentStart,
    MoveDocumentEnd,
    // Selection movement (extends the selection while moving)
    SelectLeft,
    SelectRight,
    SelectUp,
    SelectDown,
    SelectWordLeft,
    SelectWordRight,
    SelectLineStart,
    SelectLineEnd,
    SelectAll,
    // Editing
    DeleteBackward,
    DeleteForward,
    DeleteWordBackward,
    DeleteWordForward,
    DeleteLine,
    // Clipboard
    Copy,
    Cut,
    Paste,
    // Multi-cursor
    AddCursorAbove,
    AddCursorBelow,
    AddCursorNextMatch,
    RemoveSecondaryCursors,
    // File operations
    Save,
    SaveAs,
    Open,
    New,
    Close,
    Quit,
    // Undo/redo
    Undo,
    Redo,
    // View
    ScrollUp,
    ScrollDown,
    // No-op
    Idle,
}

/// The action a configuration name denotes; the character-insertion
/// action additionally needs its character argument.
pub open spec fn action_of(s: Seq<char>, char_arg: Option<char>) -> Option<Action> {
    if s == "insert_char"@ {
        match char_arg {
            Some(c) => Some(Action::InsertChar(c)),
            Option::None => Option::None,
        }
    } else if s == "insert_newline"@ {
        Some(Action::InsertNewline)
    } else if s == "insert_tab"@ {
        Some(Action::InsertTab)
    } else if s == "move_left"@ {
        Some(Action::MoveLeft)
    } else if s == "move_right"@ {
        Some(Action::MoveRight)
    } else if s == "move_up"@ {
        Some(Action::MoveUp)
    } else if s == "move_down"@ {
        Some(Action::MoveDown)
    } else if s == "move_word_left"@ {
        Some(Action::MoveWordLeft)
    } else if s == "move_word_right"@ {
        Some(Action::MoveWordRight)
    } else if s == "move_line_start"@ {
        Some(Action::MoveLineStart)
    } else if s == "move_line_end"@ {
        Some(Action::MoveLineEnd)
    } else if s == "move_page_up"@ {
        Some(Action::MovePageUp)
    } else if s == "move_page_down"@ {
        Some(Action::MovePageDown)
    } else if s == "move_document_start"@ {
        Some(Action::MoveDocumentStart)
    } else if s == "move_document_end"@ {
        Some(Action::MoveDocumentEnd)
    } else if s == "select_left"@ {
        Some(Action::SelectLeft)
    } else if s == "select_right"@ {
        Some(Action::SelectRight)
    } else if s == "select_up"@ {
        Some(Action::SelectUp)
    } else if s == "select_down"@ {
        Some(Action::SelectDown)
    } else if s == "select_word_left"@ {
        Some(Action::SelectWordLeft)
    } else if s == "select_word_right"@ {
        Some(Action::SelectWordRight)
    } else if s == "select_line_start"@ {
        Some(Action::SelectLineStart)
    } else if s == "select_line_end"@ {
        Some(Action::SelectLineEnd)
    } else if s == "select_all"@ {
        Some(Action::SelectAll)
    } else if s == "delete_backward"@ {
        Some(Action::DeleteBackward)
    } else if s == "delete_forward"@ {
        Some(Action::DeleteForward)
    } else if s == "delete_word_backward"@ {
        Some(Action::DeleteWordBackward)
    } else if s == "delete_word_forward"@ {
        Some(Action::DeleteWordForward)
    } else if s == "delete_line"@ {
        Some(Action::DeleteLine)
    } else if s == "copy"@ {
        Some(Action::Copy)
    } else if s == "cut"@ {
        Some(Action::Cut)
    } else if s == "paste"@ {
        Some(Action::Paste)
    } else if s == "add_cursor_above"@ {
        Some(Action::AddCursorAbove)
    } else if s == "add_cursor_below"@ {
        Some(Action::AddCursorBelow)
    } else if s == "add_cursor_next_match"@ {
        Some(Action::AddCursorNextMatch)
    } else if s == "remove_secondary_cursors"@ {
        Some(Action::RemoveSecondaryCursors)
    } else if s == "save"@ {
        Some(Action::Save)
    } else if s == "save_as"@ {
        Some(Action::SaveAs)
    } else if s == "open"@ {
        Some(Action::Open)
    } else if s == "new"@ {
        Some(Action::New)
    } else if s == "close"@ {
        Some(Action::Close)
    } else if s == "quit"@ {
        Some(Action::Quit)
    } else if s == "undo"@ {
        Some(Action::Undo)
    } else if s == "redo"@ {
        Some(Action::Redo)
    } else if s == "scroll_up"@ {
        Some(Action::ScrollUp)
    } else if s == "scroll_down"@ {
        Some(Action::ScrollDown)
    } else {
        Option::None
    }
}

impl Action {
    /// Parse an action from its configuration name; the
    /// character-insertion action takes its character as `char_arg`.
    pub fn from_str(s: &str, char_arg: Option<char>) -> (r: Option<Action>)
        ensures
            r == action_of(s@, char_arg),
    {
        if str_eq(s, "insert_char") {
            match char_arg {
                Some(c) => Some(Action::InsertChar(c)),
                None => None,
            }
        } else if str_eq(s, "insert_newline") {
            Some(Action::InsertNewline)
        } else if str_eq(s, "insert_tab") {
            Some(Action::InsertTab)
        } else if str_eq(s, "move_left") {
            Some(Action::MoveLeft)
        } else if str_eq(s, "move_right") {
            Some(Action::MoveRight)
        } else if str_eq(s, "move_up") {
            Some(Action::MoveUp)
        } else if str_eq(s, "move_down") {
            Some(Action::MoveDown)
        } else if str_eq(s, "move_word_left") {
            Some(Action::MoveWordLeft)
        } else if str_eq(s, "move_word_right") {
            Some(Action::MoveWordRight)
        } else if str_eq(s, "move_line_start") {
            Some(Action::MoveLineStart)
        } else if str_eq(s, "move_line_end") {
            Some(Action::MoveLineEnd)
        } else if str_eq(s, "move_page_up") {
            Some(Action::MovePageUp)
        } else if str_eq(s, "move_page_down") {
            Some(Action::MovePageDown)
        } else if str_eq(s, "move_document_start") {
            Some(Action::MoveDocumentStart)
        } else if str_eq(s, "move_document_end") {
            Some(Action::MoveDocumentEnd)
        } else if str_eq(s, "select_left") {
            Some(Action::SelectLeft)
        } else if str_eq(s, "select_right") {
            Some(Action::SelectRight)
        } else if str_eq(s, "select_up") {
            Some(Action::SelectUp)
        } else if str_eq(s, "select_down") {
            Some(Action::SelectDown)
        } else if str_eq(s, "select_word_left") {
            Some(Action::SelectWordLeft)
        } else if str_eq(s, "select_word_right") {
            Some(Action::SelectWordRight)
        } else if str_eq(s, "select_line_start") {
            Some(Action::SelectLineStart)
        } else if str_eq(s, "select_line_end") {
            Some(Action::SelectLineEnd)
        } else if str_eq(s, "select_all") {
            Some(Action::SelectAll)
        } else if str_eq(s, "delete_backward") {
            Some(Action::DeleteBackward)
        } else if str_eq(s, "delete_forward") {
            Some(Action::DeleteForward)
        } else if str_eq(s, "delete_word_backward") {
            Some(Action::DeleteWordBackward)
        } else if str_eq(s, "delete_word_forward") {
            Some(Action::DeleteWordForward)
        } else if str_eq(s, "delete_line") {
            Some(Action::DeleteLine)
        } else if str_eq(s, "copy") {
            Some(Action::Copy)
        } else if str_eq(s, "cut") {
            Some(Action::Cut)
        } else if str_eq(s, "paste") {
            Some(Action::Paste)
        } else if str_eq(s, "add_cursor_above") {
            Some(Action::AddCursorAbove)
        } else if str_eq(s, "add_cursor_below") {
            Some(Action::AddCursorBelow)
        } else if str_eq(s, "add_cursor_next_match") {
            Some(Action::AddCursorNextMatch)
        } else if str_eq(s, "remove_secondary_cursors") {
            Some(Action::RemoveSecondaryCursors)
        } else if str_eq(s, "save") {
            Some(Action::Save)
        } else if str_eq(s, "save_as") {
            Some(Action::SaveAs)
        } else if str_eq(s, "open") {
            Some(Action::Open)
        } else if str_eq(s, "new") {
            Some(Action::New)
        } else if str_eq(s, "close") {
            Some(Action::Close)
        } else if str_eq(s, "quit") {
            Some(Action::Quit)
        } else if str_eq(s, "undo") {
            Some(Action::Undo)
        } else if str_eq(s, "redo") {
            Some(Action::Redo)
        } else if str_eq(s, "scroll_up") {
            Some(Action::ScrollUp)
        } else if str_eq(s, "scroll_down") {
            Some(Action::ScrollDown)
        } else {
            None
        }
    }
}

} // verus!
