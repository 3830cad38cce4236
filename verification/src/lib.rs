//! Core editing model of a terminal text editor: a line-indexed buffer over an
//! ordered byte store, content-anchored markers, single- and multi-cursor
//! state, and an append-only event log with linear undo/redo.

pub mod buffer;
pub mod cursor;
pub mod dropdown;
pub mod event;
pub mod keybindings;
pub mod marker;
pub mod plugin_api;
pub mod popup;
pub mod strutil;
pub mod text_store;
pub mod viewport;
