//! Edit events and the append-only event log.
//!
//! An `Event` describes one state change; only `Insert` and `Delete` modify
//! buffer content, and those two are mutually inverse.  The `EventLog`
//! keeps an ordered history with an undo/redo cursor: appending after one
//! or more undos discards the abandoned future first.

use vstd::prelude::*;
use vstd::string::StringSliceAdditionalSpecFns;

verus! {

/// Unique identifier for a cursor.
#[derive(Debug, Clone, Copy, PartialEq, Eq, Hash, Structural)]
pub struct CursorId(pub usize);

/// Core event types representing all possible state changes.
#[derive(Debug)]
pub enum Event {
    /// Insert text at a position.
    Insert { position: usize, text: String, cursor_id: CursorId },
    /// Delete a range of text.
    Delete { range: core::ops::Range<usize>, deleted_text: String, cursor_id: CursorId },
    /// Move a cursor to a new position.
    MoveCursor { cursor_id: CursorId, position: usize, anchor: Option<usize> },
    /// Add a new cursor.
    AddCursor { cursor_id: CursorId, position: usize, anchor: Option<usize> },
    /// Remove a cursor.
    RemoveCursor { cursor_id: CursorId },
    /// Scroll the viewport.
    Scroll { line_offset: isize },
    /// Set the viewport to a specific position.
    SetViewport { top_line: usize },
    /// Change the editing mode.
    ChangeMode { mode: String },
}

impl Clone for Event {
    fn clone(&self) -> (r: Event)
        ensures
            r == *self,
    {
        match self {
            Event::Insert { position, text, cursor_id } => Event::Insert {
                position: *position,
                text: text.clone(),
                cursor_id: *cursor_id,
            },
            Event::Delete { range, deleted_text, cursor_id } => Event::Delete {
                range: range.start..range.end,
                deleted_text: deleted_text.clone(),
                cursor_id: *cursor_id,
            },
            Event::MoveCursor { cursor_id, position, anchor } => Event::MoveCursor {
                cursor_id: *cursor_id,
                position: *position,
                anchor: *anchor,
            },
            Event::AddCursor { cursor_id, position, anchor } => Event::AddCursor {
                cursor_id: *cursor_id,
                position: *position,
                anchor: *anchor,
            },
            Event::RemoveCursor { cursor_id } => Event::RemoveCursor { cursor_id: *cursor_id },
            Event::Scroll { line_offset } => Event::Scroll { line_offset: *line_offset },
            Event::SetViewport { top_line } => Event::SetViewport { top_line: *top_line },
            Event::ChangeMode { mode } => Event::ChangeMode { mode: mode.clone() },
        }
    }
}

impl Event {
    /// True when the event modifies buffer content.
    pub open spec fn modifies_buffer_spec(&self) -> bool {
        self matches Event::Insert { .. } || self matches Event::Delete { .. }
    }

    /// The inverse event, for undo: an insertion becomes the deletion of
    /// the inserted range and vice versa.  Events that do not capture
    /// their prior state have no inverse.
    pub fn inverse(&self) -> (r: Option<Event>)
        requires
            self matches Event::Insert { position, text, .. } ==> position + vstd::utf8::encode_utf8(
                text@,
            ).len() <= usize::MAX,
        ensures
            match *self {
                Event::Insert { position, ref text, cursor_id } => r matches Some(inv)
                    && inv matches Event::Delete { range, deleted_text, cursor_id: cid }
                    && range.start == position && range.end == position + vstd::utf8::encode_utf8(text@).len()
                    && deleted_text@ == text@ && cid == cursor_id,
                Event::Delete { ref range, ref deleted_text, cursor_id } => r matches Some(inv)
                    && inv matches Event::Insert { position, text, cursor_id: cid } && position
                    == range.start && text@ == deleted_text@ && cid == cursor_id,
                _ => r is None,
            },
    {
        match self {
            Event::Insert { position, text, cursor_id } => {
                let text_bytes = text.as_str().as_bytes_vec();
                let end = *position + text_bytes.len();
                Some(
                    Event::Delete {
                        range: *position..end,
                        deleted_text: text.clone(),
                        cursor_id: *cursor_id,
                    },
                )
            },
            Event::Delete { range, deleted_text, cursor_id } => {
                Some(
                    Event::Insert {
                        position: range.start,
                        text: deleted_text.clone(),
                        cursor_id: *cursor_id,
                    },
                )
            },
            _ => None,
        }
    }

    /// True when this event modifies the buffer content.
    pub fn modifies_buffer(&self) -> (r: bool)
        ensures
            r == self.modifies_buffer_spec(),
    {
        match self {
            Event::Insert { .. } => true,
            Event::Delete { .. } => true,
            _ => false,
        }
    }

    /// The cursor id associated with this event, if any.
    pub fn cursor_id(&self) -> (r: Option<CursorId>)
        ensures
            r == match *self {
                Event::Insert { cursor_id, .. } => Some(cursor_id),
                Event::Delete { cursor_id, .. } => Some(cursor_id),
                Event::MoveCursor { cursor_id, .. } => Some(cursor_id),
                Event::AddCursor { cursor_id, .. } => Some(cursor_id),
                Event::RemoveCursor { cursor_id } => Some(cursor_id),
                _ => None::<CursorId>,
            },
    {
        match self {
            Event::Insert { cursor_id, .. } => Some(*cursor_id),
            Event::Delete { cursor_id, .. } => Some(*cursor_id),
            Event::MoveCursor { cursor_id, .. } => Some(*cursor_id),
            Event::AddCursor { cursor_id, .. } => Some(*cursor_id),
            Event::RemoveCursor { cursor_id } => Some(*cursor_id),
            _ => None,
        }
    }
}

/// Relies on `std::time::SystemTime::now`: the wall clock, read as
/// milliseconds since the epoch (0 for a clock before it).
#[verifier::external_body]
fn now_millis() -> u64 {
    match std::time::SystemTime::now().duration_since(std::time::UNIX_EPOCH) {
        Ok(d) => d.as_millis() as u64,
        Err(_) => 0,
    }
}

/// A log entry: an event plus a timestamp and an optional description.
#[derive(Debug)]
pub struct LogEntry {
    pub event: Event,
    /// Milliseconds since the epoch when the event occurred.
    pub timestamp: u64,
    /// Optional human-readable description.
    pub description: Option<String>,
}

impl Clone for LogEntry {
    fn clone(&self) -> (r: LogEntry)
        ensures
            r == *self,
    {
        LogEntry {
            event: self.event.clone(),
            timestamp: self.timestamp,
            description: match &self.description {
                Some(d) => Some(d.clone()),
                None => None,
            },
        }
    }
}

impl LogEntry {
    /// A new entry for `event`, timestamped now, with no description.
    pub fn new(event: Event) -> (r: LogEntry)
        ensures
            r.event == event,
            r.description is None,
    {
        LogEntry { event, timestamp: now_millis(), description: None }
    }

    /// The same entry with a description attached.
    pub fn with_description(self, description: String) -> (r: LogEntry)
        ensures
            r.event == self.event,
            r.timestamp == self.timestamp,
            r.description == Some(description),
    {
        LogEntry { event: self.event, timestamp: self.timestamp, description: Some(description) }
    }
}

/// The event log: an ordered history of entries and an undo/redo cursor
/// `current_index` with `0 <= current_index <= entries.len()`.  Entries at
/// or past the cursor are the redo future; a fresh append truncates them.
pub struct EventLog {
    entries: Vec<LogEntry>,
    current_index: usize,
}

impl EventLog {
    /// The logged entries.
    pub closed spec fn entries_spec(&self) -> Seq<LogEntry> {
        self.entries@
    }

    /// The undo/redo cursor.
    pub closed spec fn index_spec(&self) -> int {
        self.current_index as int
    }

    /// The log's invariant: the cursor stays within the history.
    pub closed spec fn wf(&self) -> bool {
        self.current_index <= self.entries@.len()
    }

    /// A new empty log.
    pub fn new() -> (r: EventLog)
        ensures
            r.wf(),
            r.entries_spec() == Seq::<LogEntry>::empty(),
            r.index_spec() == 0,
    {
        EventLog { entries: Vec::new(), current_index: 0 }
    }

    /// A log replayed from previously persisted entries, positioned at the
    /// end of the history.
    pub fn from_entries(entries: Vec<LogEntry>) -> (r: EventLog)
        ensures
            r.wf(),
            r.entries_spec() == entries@,
            r.index_spec() == entries@.len(),
    {
        let current_index = entries.len();
        EventLog { entries, current_index }
    }

    /// Append an event: the abandoned redo future (entries at or past the
    /// cursor) is discarded, the event is pushed, and the cursor moves past
    /// it.  Returns the new entry's index.
    pub fn append(&mut self, event: Event) -> (r: usize)
        requires
            old(self).wf(),
        ensures
            final(self).wf(),
            final(self).entries_spec().len() == old(self).index_spec() + 1,
            final(self).entries_spec().subrange(0, old(self).index_spec()) == old(self).entries_spec().subrange(0, old(self).index_spec()),
            final(self).entries_spec().last().event == event,
            final(self).entries_spec().last().description is None,
            final(self).index_spec() == final(self).entries_spec().len(),
            r == old(self).index_spec(),
    {
        if self.current_index < self.entries.len() {
            self.entries.truncate(self.current_index);
        }
        proof {
            assert(self.entries@ =~= old(self).entries@.subrange(0, old(self).current_index as int));
            assert(self.entries@.subrange(0, old(self).current_index as int) =~= old(self).entries@.subrange(0, old(self).current_index as int));
        }
        let entry = LogEntry::new(event);
        self.entries.push(entry);
        self.current_index = self.entries.len();
        proof {
            assert(self.entries@.subrange(0, old(self).current_index as int) =~= old(self).entries@.subrange(0, old(self).current_index as int));
        }
        self.current_index - 1
    }

    /// The current undo/redo cursor.
    pub fn current_index(&self) -> (r: usize)
        ensures
            r == self.index_spec(),
    {
        self.current_index
    }

    /// True when at least one entry lies behind the cursor.
    pub fn can_undo(&self) -> (r: bool)
        ensures
            r == (self.index_spec() > 0),
    {
        self.current_index > 0
    }

    /// True when the cursor has a redo future ahead of it.
    pub fn can_redo(&self) -> (r: bool)
        ensures
            r == (self.index_spec() < self.entries_spec().len()),
    {
        self.current_index < self.entries.len()
    }

    /// Step the cursor back one entry and return that entry's event for
    /// the caller to invert and apply; `None` at the start of the history.
    pub fn undo(&mut self) -> (r: Option<Event>)
        requires
            old(self).wf(),
        ensures
            final(self).wf(),
            final(self).entries_spec() == old(self).entries_spec(),
            old(self).index_spec() == 0 ==> r is None && final(self).index_spec() == 0,
            old(self).index_spec() > 0 ==> final(self).index_spec() == old(self).index_spec() - 1
                && r == Some(old(self).entries_spec()[old(self).index_spec() - 1].event),
    {
        if self.current_index > 0 {
            self.current_index = self.current_index - 1;
            Some(self.entries[self.current_index].event.clone())
        } else {
            None
        }
    }

    /// Step the cursor forward one entry and return that entry's event for
    /// the caller to reapply; `None` at the end of the history.
    pub fn redo(&mut self) -> (r: Option<Event>)
        requires
            old(self).wf(),
        ensures
            final(self).wf(),
            final(self).entries_spec() == old(self).entries_spec(),
            old(self).index_spec() >= old(self).entries_spec().len() ==> r is None && final(self).index_spec() == old(self).index_spec(),
            old(self).index_spec() < old(self).entries_spec().len() ==> final(self).index_spec()
                == old(self).index_spec() + 1 && r == Some(
                old(self).entries_spec()[old(self).index_spec()].event,
            ),
    {
        if self.current_index < self.entries.len() {
            let event = self.entries[self.current_index].event.clone();
            self.current_index = self.current_index + 1;
            Some(event)
        } else {
            None
        }
    }

    /// All logged entries.
    pub fn entries(&self) -> (r: &Vec<LogEntry>)
        ensures
            r@ == self.entries_spec(),
    {
        &self.entries
    }

    /// The entries of the index range `[range.start, range.end)`.
    pub fn range(&self, range: core::ops::Range<usize>) -> (r: Vec<LogEntry>)
        requires
            range.start <= range.end <= self.entries_spec().len(),
        ensures
            r@ == self.entries_spec().subrange(range.start as int, range.end as int),
    {
        let mut out: Vec<LogEntry> = Vec::new();
        let mut i: usize = range.start;
        proof {
            assert(out@ =~= self.entries_spec().subrange(range.start as int, range.start as int));
        }
        while i < range.end
            invariant
                range.start <= i <= range.end <= self.entries@.len(),
                out@ == self.entries@.subrange(range.start as int, i as int),
            decreases range.end - i,
        {
            out.push(self.entries[i].clone());
            proof {
                assert(out@ =~= self.entries@.subrange(range.start as int, i + 1 as int));
            }
            i = i + 1;
        }
        out
    }

    /// The most recent committed event: the one just behind the cursor.
    pub fn last_event(&self) -> (r: Option<Event>)
        requires
            self.wf(),
        ensures
            self.index_spec() == 0 ==> r is None,
            self.index_spec() > 0 ==> r == Some(
                self.entries_spec()[self.index_spec() - 1].event,
            ),
    {
        if self.current_index > 0 {
            Some(self.entries[self.current_index - 1].event.clone())
        } else {
            None
        }
    }

    /// Discard the whole history.
    pub fn clear(&mut self)
        ensures
            final(self).wf(),
            final(self).entries_spec() == Seq::<LogEntry>::empty(),
            final(self).index_spec() == 0,
    {
        self.entries.clear();
        self.current_index = 0;
    }
}

} // verus!
