//! Plugin API: a safe interface for plugins to interact with the editor.
//!
//! Plugins never touch editor internals: they read a snapshot of editor
//! state that the editor refreshes each loop iteration, and they queue
//! commands that the editor drains and applies.

use vstd::prelude::*;
use vstd::string::StrSliceExecFns;
use vstd::string::StringExecFns;

verus! {

/// Unique identifier for a buffer.
#[derive(Debug, Clone, Copy, PartialEq, Eq, Hash, Structural)]
pub struct BufferId(pub usize);

/// Information about a cursor in the editor.
#[derive(Debug)]
pub struct CursorInfo {
    /// Byte position of the cursor.
    pub position: usize,
    /// Selection range, if any.
    pub selection: Option<core::ops::Range<usize>>,
}

impl Clone for CursorInfo {
    fn clone(&self) -> (r: CursorInfo)
        ensures
            r == *self,
    {
        CursorInfo {
            position: self.position,
            selection: match &self.selection {
                Some(s) => Some(s.start..s.end),
                None => None,
            },
        }
    }
}

/// Information about a buffer.
#[derive(Debug)]
pub struct BufferInfo {
    /// Buffer id.
    pub id: BufferId,
    /// File path, if any.
    pub path: Option<String>,
    /// Whether the buffer has been modified.
    pub modified: bool,
    /// Length of the buffer in bytes.
    pub length: usize,
}

impl Clone for BufferInfo {
    fn clone(&self) -> (r: BufferInfo)
        ensures
            r == *self,
    {
        BufferInfo {
            id: self.id,
            path: match &self.path {
                Some(p) => Some(p.clone()),
                None => None,
            },
            modified: self.modified,
            length: self.length,
        }
    }
}

/// Information about the viewport.
#[derive(Debug)]
pub struct ViewportInfo {
    /// Byte position of the first visible line.
    pub top_byte: usize,
    /// Left column offset (horizontal scroll).
    pub left_column: usize,
    /// Viewport width.
    pub width: u16,
    /// Viewport height.
    pub height: u16,
}

impl Clone for ViewportInfo {
    fn clone(&self) -> (r: ViewportInfo)
        ensures
            r == *self,
    {
        ViewportInfo {
            top_byte: self.top_byte,
            left_column: self.left_column,
            width: self.width,
            height: self.height,
        }
    }
}

/// Snapshot of editor state for plugin queries, refreshed by the editor
/// on each loop iteration.
#[derive(Debug)]
pub struct EditorStateSnapshot {
    /// Currently active buffer id.
    pub active_buffer_id: BufferId,
    /// Information about all open buffers.
    pub buffers: Vec<BufferInfo>,
    /// The buffers' contents, keyed by id.
    pub buffer_contents: Vec<(BufferId, String)>,
    /// Primary cursor of the active buffer.
    pub primary_cursor: Option<CursorInfo>,
    /// All cursors of the active buffer.
    pub all_cursors: Vec<CursorInfo>,
    /// Viewport of the active buffer.
    pub viewport: Option<ViewportInfo>,
}

impl EditorStateSnapshot {
    /// An empty snapshot: no buffers, no cursors, no viewport.
    pub fn new() -> (r: EditorStateSnapshot)
        ensures
            r.active_buffer_id == BufferId(0),
            r.buffers@.len() == 0,
            r.buffer_contents@.len() == 0,
            r.primary_cursor is None,
            r.all_cursors@.len() == 0,
            r.viewport is None,
    {
        EditorStateSnapshot {
            active_buffer_id: BufferId(0),
            buffers: Vec::new(),
            buffer_contents: Vec::new(),
            primary_cursor: None,
            all_cursors: Vec::new(),
            viewport: None,
        }
    }
}

/// A command a plugin sends to the editor.
#[derive(Debug)]
pub enum PluginCommand {
    /// Insert text at a position in a buffer.
    InsertText { buffer_id: BufferId, position: usize, text: String },
    /// Delete a range of text from a buffer.
    DeleteRange { buffer_id: BufferId, range: core::ops::Range<usize> },
    /// Add an overlay to a buffer.
    AddOverlay {
        buffer_id: BufferId,
        overlay_id: String,
        range: core::ops::Range<usize>,
        color: (u8, u8, u8),
        underline: bool,
    },
    /// Remove an overlay from a buffer.
    RemoveOverlay { buffer_id: BufferId, overlay_id: String },
    /// Set the status message.
    SetStatus { message: String },
    /// Unregister a command by name.
    UnregisterCommand { name: String },
    /// Open a file in the editor without switching focus.
    OpenFileInBackground { path: String },
    /// Insert text at the current cursor position in the active buffer.
    InsertAtCursor { text: String },
    /// Spawn an asynchronous process, with an id for its completion
    /// callback.
    SpawnProcess { command: String, args: Vec<String>, cwd: Option<String>, callback_id: u64 },
}

/// The first newline at or after `b` in `chars`, or the length.
pub open spec fn char_line_end(chars: Seq<char>, b: int) -> int
    decreases chars.len() - b,
{
    if b < 0 || b >= chars.len() {
        chars.len() as int
    } else if chars[b] == '\n' {
        b
    } else {
        char_line_end(chars, b + 1)
    }
}

/// The text of line `k` (0-based) of `chars` scanning from `start`, split
/// on newlines with one trailing carriage return stripped, as `str::lines`
/// splits; `None` past the last line.
pub open spec fn nth_line(chars: Seq<char>, k: int, start: int) -> Option<Seq<char>>
    decreases chars.len() - start + 1,
    via nth_line_decreases
{
    if start >= chars.len() || start < 0 {
        None
    } else {
        let end = char_line_end(chars, start);
        if k == 0 {
            Some(strip_cr(chars.subrange(start, end)))
        } else {
            nth_line(chars, k - 1, end + 1)
        }
    }
}

/// `char_line_end` never looks backward.
proof fn lemma_char_line_end_ge(chars: Seq<char>, b: int)
    requires
        0 <= b <= chars.len(),
    ensures
        b <= char_line_end(chars, b) <= chars.len(),
    decreases chars.len() - b,
{
    if b < chars.len() && chars[b] != '\n' {
        lemma_char_line_end_ge(chars, b + 1);
    }
}

#[via_fn]
proof fn nth_line_decreases(chars: Seq<char>, k: int, start: int) {
    if !(start >= chars.len() || start < 0) && k != 0 {
        lemma_char_line_end_ge(chars, start);
    }
}

/// Strip one trailing carriage return.
pub open spec fn strip_cr(line: Seq<char>) -> Seq<char> {
    if line.len() > 0 && line.last() == '\r' {
        line.drop_last()
    } else {
        line
    }
}

/// Plugin API context: the state snapshot plugins read, and the command
/// queue they write, which the editor drains.
pub struct PluginApi {
    state_snapshot: EditorStateSnapshot,
    pending: Vec<PluginCommand>,
}

impl PluginApi {
    /// The editor-state snapshot plugins query.
    pub closed spec fn snapshot_spec(&self) -> EditorStateSnapshot {
        self.state_snapshot
    }

    /// The queued commands, oldest first.
    pub closed spec fn pending_spec(&self) -> Seq<PluginCommand> {
        self.pending@
    }

    /// A new context over the given snapshot, with nothing queued.
    pub fn new(state_snapshot: EditorStateSnapshot) -> (r: PluginApi)
        ensures
            r.snapshot_spec() == state_snapshot,
            r.pending_spec() == Seq::<PluginCommand>::empty(),
    {
        PluginApi { state_snapshot, pending: Vec::new() }
    }

    /// Replace the snapshot; the editor calls this each loop iteration.
    pub fn update_snapshot(&mut self, state_snapshot: EditorStateSnapshot)
        ensures
            final(self).snapshot_spec() == state_snapshot,
            final(self).pending_spec() == old(self).pending_spec(),
    {
        self.state_snapshot = state_snapshot;
    }

    /// Queue a command for the editor.
    pub fn send_command(&mut self, command: PluginCommand) -> (r: Result<(), String>)
        ensures
            r is Ok,
            final(self).pending_spec() == old(self).pending_spec().push(command),
            final(self).snapshot_spec() == old(self).snapshot_spec(),
    {
        self.pending.push(command);
        Ok(())
    }

    /// Drain the queued commands, oldest first.
    pub fn take_pending(&mut self) -> (r: Vec<PluginCommand>)
        ensures
            r@ == old(self).pending_spec(),
            final(self).pending_spec() == Seq::<PluginCommand>::empty(),
            final(self).snapshot_spec() == old(self).snapshot_spec(),
    {
        let mut taken: Vec<PluginCommand> = Vec::new();
        core::mem::swap(&mut taken, &mut self.pending);
        taken
    }

    /// Queue an insertion of `text` at `position` in buffer `buffer_id`.
    pub fn insert_text(&mut self, buffer_id: BufferId, position: usize, text: String) -> (r: Result<
        (),
        String,
    >)
        ensures
            r is Ok,
            final(self).pending_spec() == old(self).pending_spec().push(
                PluginCommand::InsertText { buffer_id, position, text },
            ),
            final(self).snapshot_spec() == old(self).snapshot_spec(),
    {
        self.send_command(PluginCommand::InsertText { buffer_id, position, text })
    }

    /// Queue a deletion of `range` from buffer `buffer_id`.
    pub fn delete_range(&mut self, buffer_id: BufferId, range: core::ops::Range<usize>) -> (r:
        Result<(), String>)
        ensures
            r is Ok,
            final(self).pending_spec().len() == old(self).pending_spec().len() + 1,
            final(self).pending_spec().subrange(0, old(self).pending_spec().len() as int) == old(
                self,
            ).pending_spec(),
            (final(self).pending_spec().last() matches PluginCommand::DeleteRange {
                buffer_id: b,
                range: rg,
            } && b == buffer_id && rg.start == range.start && rg.end == range.end),
            final(self).snapshot_spec() == old(self).snapshot_spec(),
    {
        let r = self.send_command(PluginCommand::DeleteRange { buffer_id, range });
        proof {
            assert(self.pending_spec().subrange(0, old(self).pending_spec().len() as int) =~= old(
                self,
            ).pending_spec());
        }
        r
    }

    /// Queue an overlay (decoration) on a byte range of a buffer.
    pub fn add_overlay(
        &mut self,
        buffer_id: BufferId,
        overlay_id: String,
        range: core::ops::Range<usize>,
        color: (u8, u8, u8),
        underline: bool,
    ) -> (r: Result<(), String>)
        ensures
            r is Ok,
            final(self).pending_spec().len() == old(self).pending_spec().len() + 1,
            final(self).pending_spec().subrange(0, old(self).pending_spec().len() as int) == old(
                self,
            ).pending_spec(),
            (final(self).pending_spec().last() matches PluginCommand::AddOverlay {
                buffer_id: b,
                overlay_id: o,
                range: rg,
                color: c,
                underline: u,
            } && b == buffer_id && o == overlay_id && rg.start == range.start && rg.end
                == range.end && c == color && u == underline),
            final(self).snapshot_spec() == old(self).snapshot_spec(),
    {
        let r = self.send_command(
            PluginCommand::AddOverlay { buffer_id, overlay_id, range, color, underline },
        );
        proof {
            assert(self.pending_spec().subrange(0, old(self).pending_spec().len() as int) =~= old(
                self,
            ).pending_spec());
        }
        r
    }

    /// Queue the removal of an overlay from a buffer.
    pub fn remove_overlay(&mut self, buffer_id: BufferId, overlay_id: String) -> (r: Result<
        (),
        String,
    >)
        ensures
            r is Ok,
            final(self).pending_spec() == old(self).pending_spec().push(
                PluginCommand::RemoveOverlay { buffer_id, overlay_id },
            ),
            final(self).snapshot_spec() == old(self).snapshot_spec(),
    {
        self.send_command(PluginCommand::RemoveOverlay { buffer_id, overlay_id })
    }

    /// Queue a status-line message.
    pub fn set_status(&mut self, message: String) -> (r: Result<(), String>)
        ensures
            r is Ok,
            final(self).pending_spec() == old(self).pending_spec().push(
                PluginCommand::SetStatus { message },
            ),
            final(self).snapshot_spec() == old(self).snapshot_spec(),
    {
        self.send_command(PluginCommand::SetStatus { message })
    }

    /// The currently active buffer id.
    pub fn get_active_buffer_id(&self) -> (r: BufferId)
        ensures
            r == self.snapshot_spec().active_buffer_id,
    {
        self.state_snapshot.active_buffer_id
    }

    /// Information about the buffer with this id.
    pub fn get_buffer_info(&self, buffer_id: BufferId) -> (r: Option<BufferInfo>)
        ensures
            match r {
                Some(info) => exists|i: int|
                    0 <= i < self.snapshot_spec().buffers@.len()
                        && #[trigger] self.snapshot_spec().buffers@[i] == info && info.id
                        == buffer_id,
                None => forall|i: int|
                    0 <= i < self.snapshot_spec().buffers@.len()
                        ==> (#[trigger] self.snapshot_spec().buffers@[i]).id != buffer_id,
            },
    {
        let n = self.state_snapshot.buffers.len();
        let mut i: usize = 0;
        while i < n
            invariant
                i <= n == self.state_snapshot.buffers@.len(),
                forall|j: int|
                    0 <= j < i ==> (#[trigger] self.state_snapshot.buffers@[j]).id != buffer_id,
            decreases n - i,
        {
            if self.state_snapshot.buffers[i].id.0 == buffer_id.0 {
                return Some(self.state_snapshot.buffers[i].clone());
            }
            i = i + 1;
        }
        None
    }

    /// The content of the buffer with this id.
    pub fn get_buffer_content(&self, buffer_id: BufferId) -> (r: Option<String>)
        ensures
            match r {
                Some(content) => exists|i: int|
                    0 <= i < self.snapshot_spec().buffer_contents@.len()
                        && #[trigger] self.snapshot_spec().buffer_contents@[i] == (
                    buffer_id,
                    content,
                    ),
                None => forall|i: int|
                    0 <= i < self.snapshot_spec().buffer_contents@.len()
                        ==> (#[trigger] self.snapshot_spec().buffer_contents@[i]).0 != buffer_id,
            },
    {
        let n = self.state_snapshot.buffer_contents.len();
        let mut i: usize = 0;
        while i < n
            invariant
                i <= n == self.state_snapshot.buffer_contents@.len(),
                forall|j: int|
                    0 <= j < i ==> (#[trigger] self.state_snapshot.buffer_contents@[j]).0
                        != buffer_id,
            decreases n - i,
        {
            if self.state_snapshot.buffer_contents[i].0.0 == buffer_id.0 {
                let content = self.state_snapshot.buffer_contents[i].1.clone();
                proof {
                    assert(self.snapshot_spec().buffer_contents@[i as int] == (buffer_id, content));
                }
                return Some(content);
            }
            i = i + 1;
        }
        None
    }

    /// Line `line_num` (1-indexed) of the buffer with this id, as
    /// `str::lines` splits lines; `None` for line 0, a missing buffer or a
    /// line past the end.
    pub fn get_line(&self, buffer_id: BufferId, line_num: usize) -> (r: Option<String>)
        ensures
            line_num == 0 ==> r is None,
            (line_num > 0 && (forall|i: int|
                0 <= i < self.snapshot_spec().buffer_contents@.len()
                    ==> (#[trigger] self.snapshot_spec().buffer_contents@[i]).0 != buffer_id))
                ==> r is None,
            (line_num > 0 && r is Some) ==> exists|i: int|
                0 <= i < self.snapshot_spec().buffer_contents@.len()
                    && (#[trigger] self.snapshot_spec().buffer_contents@[i]).0 == buffer_id
                    && nth_line(self.snapshot_spec().buffer_contents@[i].1@, line_num - 1, 0)
                    == Some(r.unwrap()@),
    {
        if line_num == 0 {
            return None;
        }
        let content = match self.get_buffer_content(buffer_id) {
            Some(c) => c,
            None => {
                return None;
            },
        };
        let target = line_num - 1;
        let r = line_of_text(&content, target);
        proof {
            if r is Some {
                let i = choose|i: int|
                    0 <= i < self.snapshot_spec().buffer_contents@.len()
                        && #[trigger] self.snapshot_spec().buffer_contents@[i] == (
                    buffer_id,
                    content,
                    );
                assert(self.snapshot_spec().buffer_contents@[i].0 == buffer_id);
                assert(nth_line(self.snapshot_spec().buffer_contents@[i].1@, line_num - 1, 0)
                    == Some(r.unwrap()@));
                assert((self.snapshot_spec().buffer_contents@[i]).0 == buffer_id);
            }
        }
        r
    }

    /// All buffers' information.
    pub fn list_buffers(&self) -> (r: Vec<BufferInfo>)
        ensures
            r@.len() == self.snapshot_spec().buffers@.len(),
            forall|i: int|
                0 <= i < r@.len() ==> #[trigger] r@[i] == self.snapshot_spec().buffers@[i],
    {
        let n = self.state_snapshot.buffers.len();
        let mut out: Vec<BufferInfo> = Vec::new();
        let mut i: usize = 0;
        while i < n
            invariant
                i <= n == self.state_snapshot.buffers@.len(),
                out@.len() == i,
                forall|j: int| 0 <= j < i ==> #[trigger] out@[j] == self.state_snapshot.buffers@[j],
            decreases n - i,
        {
            out.push(self.state_snapshot.buffers[i].clone());
            i = i + 1;
        }
        out
    }

    /// The primary cursor of the active buffer, if known.
    pub fn get_primary_cursor(&self) -> (r: Option<CursorInfo>)
        ensures
            r == self.snapshot_spec().primary_cursor,
    {
        match &self.state_snapshot.primary_cursor {
            Some(c) => Some(c.clone()),
            None => None,
        }
    }

    /// All cursors of the active buffer.
    pub fn get_all_cursors(&self) -> (r: Vec<CursorInfo>)
        ensures
            r@.len() == self.snapshot_spec().all_cursors@.len(),
            forall|i: int|
                0 <= i < r@.len() ==> #[trigger] r@[i] == self.snapshot_spec().all_cursors@[i],
    {
        let n = self.state_snapshot.all_cursors.len();
        let mut out: Vec<CursorInfo> = Vec::new();
        let mut i: usize = 0;
        while i < n
            invariant
                i <= n == self.state_snapshot.all_cursors@.len(),
                out@.len() == i,
                forall|j: int|
                    0 <= j < i ==> #[trigger] out@[j] == self.state_snapshot.all_cursors@[j],
            decreases n - i,
        {
            out.push(self.state_snapshot.all_cursors[i].clone());
            i = i + 1;
        }
        out
    }

    /// The viewport of the active buffer, if known.
    pub fn get_viewport(&self) -> (r: Option<ViewportInfo>)
        ensures
            r == self.snapshot_spec().viewport,
    {
        match &self.state_snapshot.viewport {
            Some(v) => Some(v.clone()),
            None => None,
        }
    }
}

/// Line `target` (0-based) of `content`, as `str::lines` splits lines.
fn line_of_text(content: &String, target: usize) -> (r: Option<String>)
    ensures
        match r {
            Some(line) => nth_line(content@, target as int, 0) == Some(line@),
            None => nth_line(content@, target as int, 0) is None,
        },
{
    let chars = crate::strutil::str_chars(content.as_str());
    let ghost cs = content@;
    let n = chars.len();
    let mut start: usize = 0;
    let mut k: usize = target;
    while start < n
        invariant
            n == cs.len(),
            chars@ == cs,
            content@ == cs,
            start <= n,
            k <= target,
            nth_line(cs, target as int, 0) == nth_line(cs, k as int, start as int),
        decreases n - start,
    {
        // Find the end of the current line.
        let mut end: usize = start;
        while end < n && chars[end] != '\n'
            invariant
                start <= end <= n == cs.len(),
                chars@ == cs,
                char_line_end(cs, start as int) == char_line_end(cs, end as int),
            decreases n - end,
        {
            proof {
                assert(char_line_end(cs, end as int) == char_line_end(cs, end + 1 as int));
            }
            end = end + 1;
        }
        proof {
            assert(char_line_end(cs, end as int) == end);
        }
        if k == 0 {
            // Strip one trailing carriage return, as str::lines does.
            let text_end = if end > start && chars[end - 1] == '\r' {
                end - 1
            } else {
                end
            };
            proof {
                assert(nth_line(cs, 0, start as int) == Some(
                    strip_cr(cs.subrange(start as int, char_line_end(cs, start as int))),
                ));
                assert(strip_cr(cs.subrange(start as int, end as int)) =~= cs.subrange(
                    start as int,
                    text_end as int,
                ));
            }
            let content_str = content.as_str();
            proof {
                assert(content_str@ == cs);
            }
            let line = content_str.substring_char(start, text_end);
            return Some(line.to_owned());
        }
        if end >= n {
            proof {
                assert(nth_line(cs, k as int, start as int) == nth_line(
                    cs,
                    k - 1 as int,
                    end + 1 as int,
                ));
                assert(nth_line(cs, k - 1 as int, end + 1 as int) is None);
            }
            return None;
        }
        proof {
            assert(nth_line(cs, k as int, start as int) == nth_line(
                cs,
                k - 1 as int,
                end + 1 as int,
            ));
        }
        k = k - 1;
        start = end + 1;
    }
    None
}

} // verus!
