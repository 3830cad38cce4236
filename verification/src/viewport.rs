//! The viewport: which lines of a buffer are visible, and the scrolling
//! rules that keep cursors in view.

use crate::buffer::Buffer;
use crate::buffer::line_of_byte;
use crate::buffer::line_to_byte_spec;
use crate::buffer::num_lines;
use crate::cursor::Cursor;
use vstd::prelude::*;

verus! {

/// Where the viewport top lands when line `line` must be visible with
/// `offset` context lines, `count` visible lines and `total` lines in all.
pub open spec fn ensure_visible_spec(
    top: int,
    line: int,
    total: int,
    count: int,
    offset: int,
) -> int {
    let eff = vstd::math::min(offset, count / 2);
    let ideal_top = top + eff;
    let ideal_bottom = top + vstd::math::max(count - eff, 0);
    let scrolled = if line < ideal_top {
        vstd::math::max(line - eff, 0)
    } else if line >= ideal_bottom {
        vstd::math::min(vstd::math::max(line - vstd::math::max(count - eff, 0), 0), vstd::math::max(
            total - 1,
            0,
        ))
    } else {
        top
    };
    if scrolled + count > total {
        vstd::math::max(total - count, 0)
    } else {
        scrolled
    }
}

/// The visible portion of a buffer: a top line and the terminal size,
/// plus the number of context lines kept around the cursor.
#[derive(Debug, Clone)]
pub struct Viewport {
    /// Line number of the first visible line.
    pub top_line: usize,
    /// Terminal width in columns.
    pub width: u16,
    /// Terminal height in rows.
    pub height: u16,
    /// Lines kept visible above and below the cursor while scrolling.
    pub scroll_offset: usize,
}

impl Viewport {
    /// A new viewport at the top of the buffer.
    pub fn new(width: u16, height: u16) -> (r: Viewport)
        ensures
            r.top_line == 0,
            r.width == width,
            r.height == height,
            r.scroll_offset == 3,
    {
        Viewport { top_line: 0, width, height, scroll_offset: 3 }
    }

    /// Set the number of context lines kept around the cursor.
    pub fn set_scroll_offset(&mut self, offset: usize)
        ensures
            *final(self) == (Viewport { scroll_offset: offset, ..*old(self) }),
    {
        self.scroll_offset = offset;
    }

    /// Update the terminal dimensions.
    pub fn resize(&mut self, width: u16, height: u16)
        ensures
            *final(self) == (Viewport { width, height, ..*old(self) }),
    {
        self.width = width;
        self.height = height;
    }

    /// The number of visible lines.
    pub fn visible_line_count(&self) -> (r: usize)
        ensures
            r == self.height as usize,
    {
        self.height as usize
    }

    /// One past the last visible line.
    pub fn bottom_line(&self) -> (r: usize)
        requires
            self.top_line + self.height <= usize::MAX,
        ensures
            r == self.top_line + self.height,
    {
        self.top_line + self.visible_line_count()
    }

    /// The range of visible lines.
    pub fn visible_range(&self) -> (r: core::ops::Range<usize>)
        requires
            self.top_line + self.height <= usize::MAX,
        ensures
            r.start == self.top_line,
            r.end == self.top_line + self.height,
    {
        self.top_line..self.bottom_line()
    }

    /// True when `line` is within the visible range.
    pub fn is_line_visible(&self, line: usize) -> (r: bool)
        requires
            self.top_line + self.height <= usize::MAX,
        ensures
            r == (self.top_line <= line < self.top_line + self.height),
    {
        line >= self.top_line && line < self.bottom_line()
    }

    /// Scroll up by `lines`, stopping at the top.
    pub fn scroll_up(&mut self, lines: usize)
        ensures
            final(self).top_line == vstd::math::max(old(self).top_line - lines, 0),
            final(self).width == old(self).width,
            final(self).height == old(self).height,
            final(self).scroll_offset == old(self).scroll_offset,
    {
        self.top_line = if self.top_line > lines {
            self.top_line - lines
        } else {
            0
        };
    }

    /// Scroll down by `lines`, stopping at the last line.
    pub fn scroll_down(&mut self, lines: usize, max_line: usize)
        requires
            old(self).top_line + lines <= usize::MAX,
        ensures
            final(self).top_line == vstd::math::min(
                old(self).top_line + lines,
                vstd::math::max(max_line - 1, 0),
            ),
            final(self).width == old(self).width,
            final(self).height == old(self).height,
            final(self).scroll_offset == old(self).scroll_offset,
    {
        let limit = if max_line > 0 {
            max_line - 1
        } else {
            0
        };
        let target = self.top_line + lines;
        self.top_line = if target < limit {
            target
        } else {
            limit
        };
    }

    /// Scroll so that `line` becomes the top line, stopping at the last
    /// line.
    pub fn scroll_to(&mut self, line: usize, max_line: usize)
        ensures
            final(self).top_line == vstd::math::min(line as int, vstd::math::max(max_line - 1, 0)),
            final(self).width == old(self).width,
            final(self).height == old(self).height,
            final(self).scroll_offset == old(self).scroll_offset,
    {
        let limit = if max_line > 0 {
            max_line - 1
        } else {
            0
        };
        self.top_line = if line < limit {
            line
        } else {
            limit
        };
    }

    /// Scroll so that line `line` is visible with the configured context,
    /// given `total_lines` lines in all.
    pub fn ensure_line_visible(&mut self, line: usize, total_lines: usize)
        requires
            old(self).top_line + old(self).height + old(self).scroll_offset <= usize::MAX,
            line + old(self).height <= usize::MAX,
        ensures
            final(self).top_line == ensure_visible_spec(
                old(self).top_line as int,
                line as int,
                total_lines as int,
                old(self).height as int,
                old(self).scroll_offset as int,
            ),
            final(self).width == old(self).width,
            final(self).height == old(self).height,
            final(self).scroll_offset == old(self).scroll_offset,
    {
        let visible_count = self.visible_line_count();
        let effective_offset = if self.scroll_offset < visible_count / 2 {
            self.scroll_offset
        } else {
            visible_count / 2
        };
        let ideal_top = self.top_line + effective_offset;
        let span = visible_count - effective_offset;
        let ideal_bottom = self.top_line + span;
        if line < ideal_top {
            self.top_line = if line > effective_offset {
                line - effective_offset
            } else {
                0
            };
        } else if line >= ideal_bottom {
            let base = if line > span {
                line - span
            } else {
                0
            };
            let limit = if total_lines > 0 {
                total_lines - 1
            } else {
                0
            };
            self.top_line = if base < limit {
                base
            } else {
                limit
            };
        }
        if self.top_line + visible_count > total_lines {
            self.top_line = if total_lines > visible_count {
                total_lines - visible_count
            } else {
                0
            };
        }
    }

    /// Scroll so that the line containing `cursor` is visible.
    pub fn ensure_visible(&mut self, buffer: &mut Buffer, cursor: &Cursor)
        requires
            old(buffer).wf(),
            old(self).top_line + old(self).height + old(self).scroll_offset <= usize::MAX,
            cursor.position + old(self).height <= usize::MAX,
        ensures
            final(buffer).wf(),
            final(buffer)@ == old(buffer)@,
            final(self).top_line == ensure_visible_spec(
                old(self).top_line as int,
                line_of_byte(
                    old(buffer)@,
                    vstd::math::min(cursor.position as int, old(buffer)@.len() as int),
                ),
                num_lines(old(buffer)@) as int,
                old(self).height as int,
                old(self).scroll_offset as int,
            ),
            final(self).width == old(self).width,
            final(self).height == old(self).height,
            final(self).scroll_offset == old(self).scroll_offset,
    {
        let cursor_line = buffer.byte_to_line(cursor.position);
        proof {
            crate::buffer::lemma_line_of_byte_le(
                buffer@,
                vstd::math::min(cursor.position as int, buffer@.len() as int),
            );
        }
        let total = buffer.line_count();
        self.ensure_line_visible(cursor_line, total);
    }

    /// Scroll so that as many of the given cursors as possible are
    /// visible, centering them when they all fit, and otherwise keeping
    /// the lowest-priority-number cursor visible with context.
    pub fn ensure_cursors_visible(&mut self, buffer: &mut Buffer, cursors: &Vec<(usize, Cursor)>)
        requires
            old(buffer).wf(),
            old(self).top_line + old(self).height + old(self).scroll_offset <= usize::MAX,
            forall|i: int|
                0 <= i < cursors@.len() ==> (#[trigger] cursors@[i]).1.position + old(self).height
                    <= usize::MAX,
        ensures
            final(buffer).wf(),
            final(buffer)@ == old(buffer)@,
            final(self).width == old(self).width,
            final(self).height == old(self).height,
            final(self).scroll_offset == old(self).scroll_offset,
            cursors@.len() == 0 ==> final(self).top_line == old(self).top_line,
    {
        if cursors.len() == 0 {
            return ;
        }
        let ghost c = buffer@;
        // Convert the cursors to line numbers, tracking the best-priority
        // one and the visible span.
        let n = cursors.len();
        let mut best_priority = cursors[0].0;
        proof {
            crate::buffer::lemma_line_of_byte_le(
                c,
                vstd::math::min(cursors@[0].1.position as int, c.len() as int),
            );
        }
        let mut best_line = buffer.byte_to_line(cursors[0].1.position);
        let mut min_line = best_line;
        let mut max_line = best_line;
        let mut i: usize = 1;
        while i < n
            invariant
                1 <= i <= n == cursors@.len(),
                buffer.wf(),
                buffer@ == c,
                buffer.modified_spec() == old(buffer).modified_spec(),
                buffer.path_spec() == old(buffer).path_spec(),
                self == old(self),
                forall|j: int|
                    0 <= j < cursors@.len() ==> (#[trigger] cursors@[j]).1.position
                        + old(self).height <= usize::MAX,
                min_line <= max_line,
                min_line <= best_line <= max_line,
                best_line + self.height <= usize::MAX,
            decreases n - i,
        {
            proof {
                crate::buffer::lemma_line_of_byte_le(
                    c,
                    vstd::math::min(cursors@[i as int].1.position as int, c.len() as int),
                );
            }
            let line = buffer.byte_to_line(cursors[i].1.position);
            if cursors[i].0 < best_priority {
                best_priority = cursors[i].0;
                best_line = line;
            }
            if line < min_line {
                min_line = line;
            }
            if line > max_line {
                max_line = line;
            }
            i = i + 1;
        }
        let visible_count = self.visible_line_count();
        let total = buffer.line_count();
        if max_line - min_line < visible_count {
            // All cursors fit: center them.
            let center = min_line + (max_line - min_line) / 2;
            let half = visible_count / 2;
            let new_top = if center > half {
                center - half
            } else {
                0
            };
            let limit = if total > visible_count {
                total - visible_count
            } else {
                0
            };
            self.top_line = if new_top < limit {
                new_top
            } else {
                limit
            };
        } else {
            // They cannot all fit: keep the best-priority cursor visible.
            self.ensure_line_visible(best_line, total);
        }
    }

    /// The visible lines with their line numbers.
    pub fn visible_content(&self, buffer: &mut Buffer) -> (r: Vec<(usize, String)>)
        requires
            old(buffer).wf(),
            self.top_line + self.height <= usize::MAX,
        ensures
            final(buffer).wf(),
            final(buffer)@ == old(buffer)@,
            r@.len() == vstd::math::min(
                self.height as int,
                vstd::math::max(num_lines(old(buffer)@) - self.top_line, 0),
            ),
            forall|i: int|
                0 <= i < r@.len() ==> (#[trigger] r@[i]).0 == self.top_line + i && r@[i].1@
                    == crate::strutil::lossy_decode(
                    crate::buffer::line_text_range(old(buffer)@, self.top_line + i),
                ),
    {
        let visible_count = self.visible_line_count();
        let lines = buffer.lines_in_range(self.top_line, visible_count);
        let m = lines.len();
        let mut out: Vec<(usize, String)> = Vec::new();
        let mut i: usize = 0;
        while i < m
            invariant
                i <= m == lines@.len(),
                self.top_line + m <= usize::MAX,
                out@.len() == i,
                forall|j: int|
                    0 <= j < i ==> (#[trigger] out@[j]).0 == self.top_line + j && out@[j].1
                        == lines@[j],
            decreases m - i,
        {
            let line_text = lines[i].clone();
            out.push((self.top_line + i, line_text));
            i = i + 1;
        }
        out
    }

    /// The buffer line shown at screen row `row`.
    pub fn screen_row_to_line(&self, row: u16) -> (r: usize)
        requires
            self.top_line + row <= usize::MAX,
        ensures
            r == self.top_line + row,
    {
        self.top_line + row as usize
    }

    /// The screen row showing buffer line `line`, when visible.
    pub fn line_to_screen_row(&self, line: usize) -> (r: Option<u16>)
        requires
            self.top_line + self.height <= usize::MAX,
        ensures
            self.top_line <= line < self.top_line + self.height ==> r == Some(
                (line - self.top_line) as u16,
            ),
            !(self.top_line <= line < self.top_line + self.height) ==> r is None,
    {
        if self.is_line_visible(line) {
            Some((line - self.top_line) as u16)
        } else {
            None
        }
    }

    /// The cursor's screen position as `(row, column)`, clamping the
    /// column to the viewport width; rows and columns past `u16` range
    /// wrap as the cast does.
    pub fn cursor_screen_position(&self, buffer: &mut Buffer, cursor: &Cursor) -> (r: (u16, u16))
        requires
            old(buffer).wf(),
        ensures
            final(buffer).wf(),
            final(buffer)@ == old(buffer)@,
            ({
                let line = line_of_byte(
                    old(buffer)@,
                    vstd::math::min(cursor.position as int, old(buffer)@.len() as int),
                );
                let line_start = line_to_byte_spec(old(buffer)@, line);
                let column = vstd::math::max(cursor.position - line_start, 0);
                let row = vstd::math::max(line - self.top_line, 0);
                &&& (row <= u16::MAX ==> r.0 == row)
                &&& r.1 == vstd::math::min(column, self.width as int) as u16
            }),
    {
        let line = buffer.byte_to_line(cursor.position);
        let line_start = buffer.line_to_byte(line);
        proof {
            crate::buffer::lemma_line_starts_props(buffer@);
        }
        let column = if cursor.position > line_start {
            cursor.position - line_start
        } else {
            0
        };
        let row = if line > self.top_line {
            line - self.top_line
        } else {
            0
        };
        #[verifier::truncate]
        let screen_row = row as u16;
        let width = self.width as usize;
        let col_clamped = if column < width {
            column
        } else {
            width
        };
        let screen_col = col_clamped as u16;
        (screen_row, screen_col)
    }
}

} // verus!
