//! Single- and multi-cursor state.
//!
//! A `Cursor` is a byte position with an optional selection anchor and a
//! remembered column for vertical motion.  `Cursors` keeps a set of
//! cursors keyed by stable ids with one designated primary; there is
//! always at least one cursor.

use crate::event::CursorId;
use vstd::prelude::*;

verus! {

/// How a position moves when the byte range starting at `edit_pos` of
/// length `old_len` is replaced by `new_len` bytes: positions after the
/// edit shift by the length difference, positions inside it snap to its
/// end, positions before it stay.
pub open spec fn adjust_pos_spec(pos: int, edit_pos: int, old_len: int, new_len: int) -> int {
    if edit_pos + old_len <= pos {
        pos - old_len + new_len
    } else if edit_pos <= pos {
        edit_pos + new_len
    } else {
        pos
    }
}

/// A cursor in the buffer with an optional selection.
#[derive(Debug, Clone, Copy, PartialEq, Eq)]
pub struct Cursor {
    /// Primary position (where edits happen), a byte offset.
    pub position: usize,
    /// Selection anchor, a byte offset, when a selection is active.
    pub anchor: Option<usize>,
    /// Desired column for vertical navigation.
    pub sticky_column: usize,
}

impl Cursor {
    /// The smaller end of the selection (the position itself without one).
    pub open spec fn selection_start_spec(&self) -> int {
        match self.anchor {
            Some(a) => vstd::math::min(a as int, self.position as int),
            None => self.position as int,
        }
    }

    /// The larger end of the selection (the position itself without one).
    pub open spec fn selection_end_spec(&self) -> int {
        match self.anchor {
            Some(a) => vstd::math::max(a as int, self.position as int),
            None => self.position as int,
        }
    }

    /// A new collapsed cursor at `position`.
    pub fn new(position: usize) -> (r: Cursor)
        ensures
            r.position == position,
            r.anchor is None,
            r.sticky_column == 0,
    {
        Cursor { position, anchor: None, sticky_column: 0 }
    }

    /// A cursor selecting `[start, end)`, positioned at `end`.
    pub fn with_selection(start: usize, end: usize) -> (r: Cursor)
        ensures
            r.position == end,
            r.anchor == Some(start),
            r.sticky_column == 0,
    {
        Cursor { position: end, anchor: Some(start), sticky_column: 0 }
    }

    /// True when no selection is active.
    pub fn collapsed(&self) -> (r: bool)
        ensures
            r == (self.anchor is None),
    {
        self.anchor.is_none()
    }

    /// The selection as a normalized range, if a selection is active.
    pub fn selection_range(&self) -> (r: Option<core::ops::Range<usize>>)
        ensures
            match r {
                Some(rg) => self.anchor is Some && rg.start == self.selection_start_spec()
                    && rg.end == self.selection_end_spec(),
                None => self.anchor is None,
            },
    {
        match self.anchor {
            Some(anchor) => {
                if anchor < self.position {
                    Some(anchor..self.position)
                } else {
                    Some(self.position..anchor)
                }
            },
            None => None,
        }
    }

    /// The start of the selection: the smaller of position and anchor.
    pub fn selection_start(&self) -> (r: usize)
        ensures
            r == self.selection_start_spec(),
    {
        match self.anchor {
            Some(a) => {
                if a < self.position {
                    a
                } else {
                    self.position
                }
            },
            None => self.position,
        }
    }

    /// The end of the selection: the larger of position and anchor.
    pub fn selection_end(&self) -> (r: usize)
        ensures
            r == self.selection_end_spec(),
    {
        match self.anchor {
            Some(a) => {
                if a > self.position {
                    a
                } else {
                    self.position
                }
            },
            None => self.position,
        }
    }

    /// Clear the selection, keeping only the position.
    pub fn clear_selection(&mut self)
        ensures
            final(self).position == old(self).position,
            final(self).anchor is None,
            final(self).sticky_column == old(self).sticky_column,
    {
        self.anchor = None;
    }

    /// Set the selection anchor.
    pub fn set_anchor(&mut self, anchor: usize)
        ensures
            final(self).position == old(self).position,
            final(self).anchor == Some(anchor),
            final(self).sticky_column == old(self).sticky_column,
    {
        self.anchor = Some(anchor);
    }

    /// Move to a position; extending keeps (or starts) a selection from
    /// the old position, otherwise the selection is dropped.
    pub fn move_to(&mut self, position: usize, extend_selection: bool)
        ensures
            final(self).position == position,
            final(self).sticky_column == old(self).sticky_column,
            final(self).anchor == if extend_selection {
                match old(self).anchor {
                    Some(a) => Some(a),
                    None => Some(old(self).position),
                }
            } else {
                None::<usize>
            },
    {
        if extend_selection {
            if self.anchor.is_none() {
                self.anchor = Some(self.position);
            }
        } else {
            self.anchor = None;
        }
        self.position = position;
    }

    /// Adjust the cursor for an edit replacing `old_len` bytes at
    /// `edit_pos` with `new_len` bytes; position and anchor each follow
    /// [`adjust_pos_spec`].
    pub fn adjust_for_edit(&mut self, edit_pos: usize, old_len: usize, new_len: usize)
        requires
            edit_pos + old_len <= usize::MAX,
            edit_pos + new_len <= usize::MAX,
            old(self).position + new_len <= usize::MAX,
            old(self).anchor matches Some(a) ==> a + new_len <= usize::MAX,
        ensures
            final(self).position == adjust_pos_spec(
                old(self).position as int,
                edit_pos as int,
                old_len as int,
                new_len as int,
            ),
            final(self).anchor == match old(self).anchor {
                Some(a) => Some(
                    adjust_pos_spec(a as int, edit_pos as int, old_len as int, new_len as int)
                        as usize,
                ),
                None => None::<usize>,
            },
            final(self).sticky_column == old(self).sticky_column,
    {
        if edit_pos <= self.position {
            if edit_pos + old_len <= self.position {
                self.position = self.position - old_len + new_len;
            } else {
                self.position = edit_pos + new_len;
            }
        }
        match self.anchor {
            Some(a) => {
                if edit_pos <= a {
                    if edit_pos + old_len <= a {
                        self.anchor = Some(a - old_len + new_len);
                    } else {
                        self.anchor = Some(edit_pos + new_len);
                    }
                }
            },
            None => {},
        }
    }
}

/// Index of the cursor with this id in a cursor list, or -1.
pub open spec fn cursor_idx_of(cs: Seq<(CursorId, Cursor)>, id: CursorId) -> int
    decreases cs.len(),
{
    if cs.len() == 0 {
        -1
    } else if cs.last().0 == id {
        cs.len() - 1
    } else {
        cursor_idx_of(cs.drop_last(), id)
    }
}

/// Whether a cursor with this id is present.
pub open spec fn has_cursor(cs: Seq<(CursorId, Cursor)>, id: CursorId) -> bool {
    cursor_idx_of(cs, id) >= 0
}

/// The cursor with this id.
pub open spec fn cursor_of(cs: Seq<(CursorId, Cursor)>, id: CursorId) -> Cursor {
    cs[cursor_idx_of(cs, id)].1
}

proof fn lemma_cursor_idx_found(cs: Seq<(CursorId, Cursor)>, id: CursorId)
    requires
        has_cursor(cs, id),
    ensures
        0 <= cursor_idx_of(cs, id) < cs.len(),
        cs[cursor_idx_of(cs, id)].0 == id,
    decreases cs.len(),
{
    if cs.len() > 0 && cs.last().0 != id {
        lemma_cursor_idx_found(cs.drop_last(), id);
    }
}

proof fn lemma_cursor_idx_unique(cs: Seq<(CursorId, Cursor)>, id: CursorId, k: int)
    requires
        forall|i: int, j: int| 0 <= i < j < cs.len() ==> cs[i].0 != cs[j].0,
        0 <= k < cs.len(),
        cs[k].0 == id,
    ensures
        cursor_idx_of(cs, id) == k,
    decreases cs.len(),
{
    if cs.len() > 0 {
        if cs.last().0 == id {
            assert(k == cs.len() - 1);
        } else {
            let d = cs.drop_last();
            assert(forall|i: int| 0 <= i < d.len() ==> #[trigger] d[i].0 == cs[i].0);
            lemma_cursor_idx_unique(d, id, k);
        }
    }
}

proof fn lemma_cursor_idx_absent(cs: Seq<(CursorId, Cursor)>, id: CursorId)
    requires
        forall|i: int| 0 <= i < cs.len() ==> (#[trigger] cs[i].0) != id,
    ensures
        cursor_idx_of(cs, id) == -1,
    decreases cs.len(),
{
    if cs.len() > 0 {
        let d = cs.drop_last();
        assert(forall|i: int| 0 <= i < d.len() ==> #[trigger] d[i].0 == cs[i].0);
        lemma_cursor_idx_absent(d, id);
    }
}

/// A collection of cursors keyed by stable ids, with one primary cursor;
/// never empty.
pub struct Cursors {
    list: Vec<(CursorId, Cursor)>,
    next_id: usize,
    primary_id: CursorId,
}

impl Cursors {
    /// The cursors, in list order.
    pub closed spec fn cursors_seq(&self) -> Seq<(CursorId, Cursor)> {
        self.list@
    }

    /// The id of the primary cursor.
    pub closed spec fn primary_id_spec(&self) -> CursorId {
        self.primary_id
    }

    /// How many cursor ids have been allocated.
    pub closed spec fn ids_used(&self) -> int {
        self.next_id as int
    }

    /// The collection's invariant: at least one cursor, distinct ids
    /// bounded by the allocation counter, and a live primary.
    pub closed spec fn wf(&self) -> bool {
        &&& self.list@.len() >= 1
        &&& (forall|i: int, j: int| 0 <= i < j < self.list@.len() ==> self.list@[i].0
            != self.list@[j].0)
        &&& (forall|i: int| 0 <= i < self.list@.len() ==> (#[trigger] self.list@[i].0).0
            < self.next_id)
        &&& has_cursor(self.list@, self.primary_id)
    }

    /// A new collection with one cursor at position 0, which is primary.
    pub fn new() -> (r: Cursors)
        ensures
            r.wf(),
            r.cursors_seq().len() == 1,
            r.cursors_seq()[0].0 == CursorId(0),
            r.cursors_seq()[0].1 == (Cursor { position: 0, anchor: None, sticky_column: 0 }),
            r.primary_id_spec() == CursorId(0),
            r.ids_used() == 1,
    {
        let mut list: Vec<(CursorId, Cursor)> = Vec::new();
        list.push((CursorId(0), Cursor::new(0)));
        let r = Cursors { list, next_id: 1, primary_id: CursorId(0) };
        proof {
            assert(r.list@.last().0 == CursorId(0));
        }
        r
    }

    /// The number of cursors.
    pub fn count(&self) -> (r: usize)
        ensures
            r == self.cursors_seq().len(),
    {
        self.list.len()
    }

    /// The primary cursor's id.
    pub fn primary_id(&self) -> (r: CursorId)
        ensures
            r == self.primary_id_spec(),
    {
        self.primary_id
    }

    /// The index of the cursor with this id, if present.
    fn find(&self, id: CursorId) -> (r: Option<usize>)
        requires
            forall|i: int, j: int|
                0 <= i < j < self.cursors_seq().len() ==> self.cursors_seq()[i].0
                    != self.cursors_seq()[j].0,
        ensures
            match r {
                Some(k) => k == cursor_idx_of(self.cursors_seq(), id) && k
                    < self.cursors_seq().len(),
                None => !has_cursor(self.cursors_seq(), id),
            },
    {
        proof {
            assert(self.cursors_seq() == self.list@);
        }
        let n = self.list.len();
        let mut k: usize = 0;
        while k < n
            invariant
                k <= n == self.list@.len(),
                forall|i: int, j: int|
                    0 <= i < j < self.list@.len() ==> self.list@[i].0 != self.list@[j].0,
                forall|j: int| 0 <= j < k ==> (#[trigger] self.list@[j].0) != id,
            decreases n - k,
        {
            if self.list[k].0.0 == id.0 {
                proof {
                    assert(self.list@[k as int].0 == id);
                    lemma_cursor_idx_unique(self.list@, id, k as int);
                }
                return Some(k);
            }
            proof {
                assert(self.list@[k as int].0 != id);
            }
            k = k + 1;
        }
        proof {
            lemma_cursor_idx_absent(self.list@, id);
        }
        None
    }

    /// The cursor with this id, if present.
    pub fn get(&self, id: CursorId) -> (r: Option<&Cursor>)
        requires
            self.wf(),
        ensures
            match r {
                Some(c) => has_cursor(self.cursors_seq(), id) && *c == cursor_of(
                    self.cursors_seq(),
                    id,
                ),
                None => !has_cursor(self.cursors_seq(), id),
            },
    {
        match self.find(id) {
            Some(k) => Some(&self.list[k].1),
            None => None,
        }
    }

    /// The primary cursor.
    pub fn primary(&self) -> (r: &Cursor)
        requires
            self.wf(),
        ensures
            *r == cursor_of(self.cursors_seq(), self.primary_id_spec()),
    {
        proof {
            lemma_cursor_idx_found(self.list@, self.primary_id);
        }
        match self.find(self.primary_id) {
            Some(k) => &self.list[k].1,
            None => vstd::pervasive::unreached(),
        }
    }

    /// Replace the cursor with this id; returns whether it was present.
    pub fn set_cursor(&mut self, id: CursorId, cursor: Cursor) -> (r: bool)
        requires
            old(self).wf(),
        ensures
            final(self).wf(),
            r == has_cursor(old(self).cursors_seq(), id),
            final(self).primary_id_spec() == old(self).primary_id_spec(),
            final(self).ids_used() == old(self).ids_used(),
            !r ==> final(self).cursors_seq() == old(self).cursors_seq(),
            r ==> final(self).cursors_seq() == old(self).cursors_seq().update(
                cursor_idx_of(old(self).cursors_seq(), id),
                (id, cursor),
            ),
    {
        match self.find(id) {
            Some(k) => {
                proof {
                    lemma_cursor_idx_found(self.list@, id);
                }
                self.list[k] = (id, cursor);
                proof {
                    assert(forall|i: int| 0 <= i < self.list@.len() ==> (#[trigger] self.list@[i].0)
                        == old(self).list@[i].0);
                    let pk = cursor_idx_of(old(self).list@, self.primary_id);
                    lemma_cursor_idx_found(old(self).list@, self.primary_id);
                    lemma_cursor_idx_unique(self.list@, self.primary_id, pk);
                }
                true
            },
            None => false,
        }
    }

    /// Replace the primary cursor.
    pub fn set_primary_cursor(&mut self, cursor: Cursor)
        requires
            old(self).wf(),
        ensures
            final(self).wf(),
            final(self).primary_id_spec() == old(self).primary_id_spec(),
            final(self).ids_used() == old(self).ids_used(),
            final(self).cursors_seq() == old(self).cursors_seq().update(
                cursor_idx_of(old(self).cursors_seq(), old(self).primary_id_spec()),
                (old(self).primary_id_spec(), cursor),
            ),
            cursor_of(final(self).cursors_seq(), final(self).primary_id_spec()) == cursor,
    {
        proof {
            lemma_cursor_idx_found(self.list@, self.primary_id);
        }
        let id = self.primary_id;
        let ok = self.set_cursor(id, cursor);
        proof {
            let k = cursor_idx_of(old(self).list@, id);
            lemma_cursor_idx_unique(self.list@, id, k);
        }
    }

    /// Add a cursor; it becomes primary.  Returns its fresh id.
    pub fn add(&mut self, cursor: Cursor) -> (r: CursorId)
        requires
            old(self).wf(),
            old(self).ids_used() < usize::MAX,
        ensures
            final(self).wf(),
            final(self).cursors_seq() == old(self).cursors_seq().push((r, cursor)),
            final(self).primary_id_spec() == r,
            !has_cursor(old(self).cursors_seq(), r),
            final(self).ids_used() == old(self).ids_used() + 1,
    {
        let id = CursorId(self.next_id);
        self.next_id = self.next_id + 1;
        self.list.push((id, cursor));
        self.primary_id = id;
        proof {
            assert forall|i: int| 0 <= i < old(self).list@.len() implies (#[trigger] old(self).list@[i].0) != id by {}
            lemma_cursor_idx_absent(old(self).list@, id);
            assert(self.list@.last().0 == id);
            assert forall|i: int, j: int| 0 <= i < j < self.list@.len() implies self.list@[i].0
                != self.list@[j].0 by {
                if j < self.list@.len() - 1 {
                    assert(self.list@[i] == old(self).list@[i]);
                    assert(self.list@[j] == old(self).list@[j]);
                } else {
                    assert(self.list@[i] == old(self).list@[i]);
                    assert(old(self).list@[i].0.0 < old(self).next_id);
                }
            }
        }
        id
    }

    /// Remove the cursor with this id; the last cursor cannot be removed.
    /// When the primary is removed, the first remaining cursor becomes
    /// primary.
    pub fn remove(&mut self, id: CursorId) -> (r: Option<Cursor>)
        requires
            old(self).wf(),
        ensures
            final(self).wf(),
            final(self).ids_used() == old(self).ids_used(),
            old(self).cursors_seq().len() <= 1 ==> r is None && final(self).cursors_seq() == old(self).cursors_seq(),
            old(self).cursors_seq().len() > 1 && !has_cursor(old(self).cursors_seq(), id) ==> r
                is None && final(self).cursors_seq() == old(self).cursors_seq(),
            old(self).cursors_seq().len() > 1 && has_cursor(old(self).cursors_seq(), id) ==> {
                let k = cursor_idx_of(old(self).cursors_seq(), id);
                &&& r == Some(old(self).cursors_seq()[k].1)
                &&& final(self).cursors_seq() == old(self).cursors_seq().remove(k)
                &&& !has_cursor(final(self).cursors_seq(), id)
            },
    {
        if self.list.len() <= 1 {
            return None;
        }
        match self.find(id) {
            Some(k) => {
                proof {
                    lemma_cursor_idx_found(self.list@, id);
                }
                let (_, cursor) = self.list.remove(k);
                proof {
                    let oldl = old(self).list@;
                    let k0 = cursor_idx_of(oldl, id);
                    assert forall|i: int, j: int|
                        0 <= i < j < self.list@.len() implies self.list@[i].0
                        != self.list@[j].0 by {
                        let i0 = if i < k0 {
                            i
                        } else {
                            i + 1
                        };
                        let j0 = if j < k0 {
                            j
                        } else {
                            j + 1
                        };
                        assert(self.list@[i] == oldl[i0]);
                        assert(self.list@[j] == oldl[j0]);
                    }
                    assert forall|i: int| 0 <= i < self.list@.len() implies (
                    #[trigger] self.list@[i].0).0 < self.next_id by {
                        let i0 = if i < k0 {
                            i
                        } else {
                            i + 1
                        };
                        assert(self.list@[i] == oldl[i0]);
                    }
                    assert forall|i: int| 0 <= i < self.list@.len() implies (
                    #[trigger] self.list@[i].0) != id by {
                        let i0 = if i < k0 {
                            i
                        } else {
                            i + 1
                        };
                        assert(self.list@[i] == oldl[i0]);
                        if i0 != k0 {
                            lemma_cursor_idx_unique(oldl, id, k0);
                            if oldl[i0].0 == id {
                                lemma_cursor_idx_unique(oldl, id, i0);
                            }
                        }
                    }
                    lemma_cursor_idx_absent(self.list@, id);
                }
                if id.0 == self.primary_id.0 {
                    proof {
                        assert(self.primary_id == id);
                    }
                    let new_primary = self.list[0].0;
                    self.primary_id = new_primary;
                    proof {
                        lemma_cursor_idx_unique(self.list@, new_primary, 0);
                    }
                } else {
                    proof {
                        let pk = cursor_idx_of(old(self).list@, self.primary_id);
                        lemma_cursor_idx_found(old(self).list@, self.primary_id);
                        let k0 = cursor_idx_of(old(self).list@, id);
                        let pk1 = if pk < k0 {
                            pk
                        } else {
                            pk - 1
                        };
                        assert(self.list@[pk1] == old(self).list@[if pk1 < k0 {
                            pk1
                        } else {
                            pk1 + 1
                        }]);
                        lemma_cursor_idx_unique(self.list@, self.primary_id, pk1);
                    }
                }
                Some(cursor)
            },
            None => None,
        }
    }

    /// Remove every cursor except the primary one.
    pub fn remove_secondary(&mut self)
        requires
            old(self).wf(),
        ensures
            final(self).wf(),
            final(self).ids_used() == old(self).ids_used(),
            final(self).primary_id_spec() == old(self).primary_id_spec(),
            final(self).cursors_seq().len() == 1,
            final(self).cursors_seq()[0] == (
                old(self).primary_id_spec(),
                cursor_of(old(self).cursors_seq(), old(self).primary_id_spec()),
            ),
    {
        proof {
            lemma_cursor_idx_found(self.list@, self.primary_id);
        }
        let id = self.primary_id;
        let cursor = match self.find(id) {
            Some(k) => self.list[k].1,
            None => vstd::pervasive::unreached(),
        };
        let mut list: Vec<(CursorId, Cursor)> = Vec::new();
        list.push((id, cursor));
        self.list = list;
        proof {
            assert(self.list@.last().0 == id);
        }
    }

    /// All cursor ids, in list order.
    pub fn ids(&self) -> (r: Vec<CursorId>)
        ensures
            r@.len() == self.cursors_seq().len(),
            forall|i: int| 0 <= i < r@.len() ==> #[trigger] r@[i] == self.cursors_seq()[i].0,
    {
        let n = self.list.len();
        let mut out: Vec<CursorId> = Vec::new();
        let mut i: usize = 0;
        while i < n
            invariant
                i <= n == self.list@.len(),
                out@.len() == i,
                forall|j: int| 0 <= j < i ==> #[trigger] out@[j] == self.list@[j].0,
            decreases n - i,
        {
            out.push(self.list[i].0);
            i = i + 1;
        }
        out
    }

    /// All cursors with their ids, in list order.
    pub fn iter(&self) -> (r: Vec<(CursorId, Cursor)>)
        ensures
            r@ == self.cursors_seq(),
    {
        let n = self.list.len();
        let mut out: Vec<(CursorId, Cursor)> = Vec::new();
        let mut i: usize = 0;
        while i < n
            invariant
                i <= n == self.list@.len(),
                out@ == self.list@.subrange(0, i as int),
            decreases n - i,
        {
            out.push(self.list[i]);
            proof {
                assert(out@ =~= self.list@.subrange(0, i + 1 as int));
            }
            i = i + 1;
        }
        proof {
            assert(self.list@.subrange(0, n as int) =~= self.list@);
        }
        out
    }

    /// Adjust every cursor for an edit replacing `old_len` bytes at
    /// `edit_pos` with `new_len` bytes.
    pub fn adjust_for_edit(&mut self, edit_pos: usize, old_len: usize, new_len: usize)
        requires
            old(self).wf(),
            edit_pos + old_len <= usize::MAX,
            edit_pos + new_len <= usize::MAX,
            forall|i: int|
                0 <= i < old(self).cursors_seq().len() ==> (#[trigger] old(self).cursors_seq()[i].1).position + new_len <= usize::MAX && (old(self).cursors_seq()[i].1.anchor matches Some(a) ==> a + new_len <= usize::MAX),
        ensures
            final(self).wf(),
            final(self).primary_id_spec() == old(self).primary_id_spec(),
            final(self).ids_used() == old(self).ids_used(),
            final(self).cursors_seq().len() == old(self).cursors_seq().len(),
            forall|i: int|
                0 <= i < final(self).cursors_seq().len() ==> {
                    let c0 = old(self).cursors_seq()[i].1;
                    let c1 = (#[trigger] final(self).cursors_seq()[i]).1;
                    &&& final(self).cursors_seq()[i].0 == old(self).cursors_seq()[i].0
                    &&& c1.position == adjust_pos_spec(
                        c0.position as int,
                        edit_pos as int,
                        old_len as int,
                        new_len as int,
                    )
                    &&& c1.anchor == match c0.anchor {
                        Some(a) => Some(
                            adjust_pos_spec(
                                a as int,
                                edit_pos as int,
                                old_len as int,
                                new_len as int,
                            ) as usize,
                        ),
                        None => None::<usize>,
                    }
                    &&& c1.sticky_column == c0.sticky_column
                },
    {
        let n = self.list.len();
        let mut i: usize = 0;
        while i < n
            invariant
                i <= n == self.list@.len(),
                n == old(self).list@.len(),
                edit_pos + old_len <= usize::MAX,
                edit_pos + new_len <= usize::MAX,
                self.next_id == old(self).next_id,
                self.primary_id == old(self).primary_id,
                forall|j: int|
                    0 <= j < n ==> (#[trigger] old(self).list@[j].1).position + new_len
                        <= usize::MAX && (old(self).list@[j].1.anchor matches Some(a) ==> a
                        + new_len <= usize::MAX),
                forall|j: int|
                    i <= j < n ==> #[trigger] self.list@[j] == old(self).list@[j],
                forall|j: int|
                    0 <= j < i ==> {
                        let c0 = old(self).list@[j].1;
                        let c1 = (#[trigger] self.list@[j]).1;
                        &&& self.list@[j].0 == old(self).list@[j].0
                        &&& c1.position == adjust_pos_spec(
                            c0.position as int,
                            edit_pos as int,
                            old_len as int,
                            new_len as int,
                        )
                        &&& c1.anchor == match c0.anchor {
                            Some(a) => Some(
                                adjust_pos_spec(
                                    a as int,
                                    edit_pos as int,
                                    old_len as int,
                                    new_len as int,
                                ) as usize,
                            ),
                            None => None::<usize>,
                        }
                        &&& c1.sticky_column == c0.sticky_column
                    },
            decreases n - i,
        {
            let (id, mut cursor) = self.list[i];
            cursor.adjust_for_edit(edit_pos, old_len, new_len);
            self.list[i] = (id, cursor);
            i = i + 1;
        }
        proof {
            assert forall|a: int, b: int| 0 <= a < b < self.list@.len() implies self.list@[a].0
                != self.list@[b].0 by {
                assert(self.list@[a].0 == old(self).list@[a].0);
                assert(self.list@[b].0 == old(self).list@[b].0);
            }
            assert forall|a: int| 0 <= a < self.list@.len() implies (
            #[trigger] self.list@[a].0).0 < self.next_id by {
                assert(self.list@[a].0 == old(self).list@[a].0);
            }
            let pk = cursor_idx_of(old(self).list@, self.primary_id);
            lemma_cursor_idx_found(old(self).list@, self.primary_id);
            assert(self.list@[pk].0 == old(self).list@[pk].0);
            lemma_cursor_idx_unique(self.list@, self.primary_id, pk);
        }
    }

    /// Sort the cursors by selection start and drop exact duplicates
    /// (same position and same anchor); the primary id stays valid,
    /// falling back to the first survivor if its cursor was dropped.
    #[verifier::rlimit(100)]
    pub fn normalize(&mut self)
        requires
            old(self).wf(),
        ensures
            final(self).wf(),
            final(self).ids_used() == old(self).ids_used(),
            final(self).cursors_seq().len() >= 1,
            final(self).cursors_seq().len() <= old(self).cursors_seq().len(),
            forall|i: int|
                0 <= i < final(self).cursors_seq().len() - 1
                    ==> (#[trigger] final(self).cursors_seq()[i]).1.selection_start_spec()
                    <= final(self).cursors_seq()[i + 1].1.selection_start_spec(),
            forall|i: int|
                0 <= i < final(self).cursors_seq().len() - 1 ==> !((#[trigger] final(self).cursors_seq()[i]).1.position == final(self).cursors_seq()[i + 1].1.position
                    && final(self).cursors_seq()[i].1.anchor == final(self).cursors_seq()[i + 1].1.anchor),
            forall|i: int|
                0 <= i < final(self).cursors_seq().len() ==> exists|j: int|
                    0 <= j < old(self).cursors_seq().len() && #[trigger] final(self).cursors_seq()[i] == old(self).cursors_seq()[j],
    {
        let n = self.list.len();
        // Insertion sort by selection start, stable.
        let mut sorted: Vec<(CursorId, Cursor)> = Vec::new();
        let mut i: usize = 0;
        while i < n
            invariant
                i <= n == self.list@.len(),
                forall|a: int, b: int|
                    0 <= a < b < self.list@.len() ==> self.list@[a].0 != self.list@[b].0,
                sorted@.len() == i,
                forall|a: int, b: int|
                    0 <= a < b < sorted@.len() ==> (#[trigger] sorted@[a]).1.selection_start_spec()
                        <= (#[trigger] sorted@[b]).1.selection_start_spec(),
                forall|a: int, b: int|
                    0 <= a < b < sorted@.len() ==> sorted@[a].0 != sorted@[b].0,
                forall|a: int|
                    0 <= a < sorted@.len() ==> exists|j: int|
                        0 <= j < i && #[trigger] sorted@[a] == self.list@[j],
            decreases n - i,
        {
            let item = self.list[i];
            let key = item.1.selection_start();
            let mut k: usize = sorted.len();
            while k > 0 && sorted[k - 1].1.selection_start() > key
                invariant
                    k <= sorted@.len(),
                    key == item.1.selection_start_spec(),
                    forall|a: int|
                        k <= a < sorted@.len() ==> (#[trigger] sorted@[a]).1.selection_start_spec()
                            > key,
                decreases k,
            {
                k = k - 1;
            }
            let ghost before = sorted@;
            sorted.insert(k, item);
            proof {
                assert forall|a: int| 0 <= a < sorted@.len() implies #[trigger] sorted@[a] == (
                if a < k {
                    before[a]
                } else if a == k {
                    item
                } else {
                    before[a - 1]
                }) by {}
                assert forall|a: int, b: int|
                    0 <= a < b < sorted@.len() implies (#[trigger] sorted@[a]).1.selection_start_spec()
                    <= (#[trigger] sorted@[b]).1.selection_start_spec() by {
                    if a == k {
                        assert(sorted@[b] == before[b - 1]);
                    } else if b == k {
                        assert(sorted@[a] == before[a]);
                        if k > 0 && a < k - 1 {
                            assert(before[a].1.selection_start_spec()
                                <= before[k - 1].1.selection_start_spec());
                        }
                    }
                }
                assert forall|a: int| 0 <= a < sorted@.len() implies exists|j: int|
                    0 <= j < i + 1 && #[trigger] sorted@[a] == self.list@[j] by {
                    if a == k {
                        assert(sorted@[a] == self.list@[i as int]);
                    }
                }
                assert forall|a: int, b: int| 0 <= a < b < sorted@.len() implies sorted@[a].0
                    != sorted@[b].0 by {
                    let ja = choose|j: int| 0 <= j < i + 1 && sorted@[a] == self.list@[j];
                    let jb = choose|j: int| 0 <= j < i + 1 && sorted@[b] == self.list@[j];
                    if a == k || b == k {
                        if a == k {
                            assert(sorted@[b] == before[b - 1]);
                            let jo = choose|j: int|
                                0 <= j < i && #[trigger] before[b - 1] == self.list@[j];
                            assert(self.list@[jo].0 != self.list@[i as int].0);
                        } else {
                            assert(sorted@[a] == before[a]);
                            let jo = choose|j: int|
                                0 <= j < i && #[trigger] before[a] == self.list@[j];
                            assert(self.list@[jo].0 != self.list@[i as int].0);
                        }
                    } else {
                        let a0 = if a < k {
                            a
                        } else {
                            a - 1
                        };
                        let b0 = if b < k {
                            b
                        } else {
                            b - 1
                        };
                        assert(sorted@[a] == before[a0]);
                        assert(sorted@[b] == before[b0]);
                    }
                }
            }
            i = i + 1;
        }
        proof {
            assert(forall|a: int|
                0 <= a < sorted@.len() ==> exists|j: int|
                    0 <= j < self.list@.len() && #[trigger] sorted@[a] == self.list@[j]);
        }
        // Drop exact duplicates, keeping the first of each run.
        let m = sorted.len();
        let mut deduped: Vec<(CursorId, Cursor)> = Vec::new();
        let mut j: usize = 0;
        while j < m
            invariant
                j <= m == sorted@.len(),
                m == n,
                n == self.list@.len(),
                forall|a: int, b: int|
                    0 <= a < b < sorted@.len() ==> (#[trigger] sorted@[a]).1.selection_start_spec()
                        <= (#[trigger] sorted@[b]).1.selection_start_spec(),
                forall|a: int, b: int|
                    0 <= a < b < sorted@.len() ==> sorted@[a].0 != sorted@[b].0,
                forall|a: int|
                    0 <= a < sorted@.len() ==> exists|jj: int|
                        0 <= jj < self.list@.len() && #[trigger] sorted@[a] == self.list@[jj],
                j > 0 ==> deduped@.len() >= 1,
                deduped@.len() <= j,
                forall|a: int, b: int|
                    0 <= a < b < deduped@.len() ==> (#[trigger] deduped@[a]).1.selection_start_spec()
                        <= (#[trigger] deduped@[b]).1.selection_start_spec(),
                forall|a: int, b: int|
                    0 <= a < b < deduped@.len() ==> deduped@[a].0 != deduped@[b].0,
                forall|a: int|
                    0 <= a < deduped@.len() - 1 ==> !((#[trigger] deduped@[a]).1.position
                        == deduped@[a + 1].1.position && deduped@[a].1.anchor == deduped@[a
                        + 1].1.anchor),
                forall|a: int|
                    0 <= a < deduped@.len() ==> exists|jj: int|
                        0 <= jj < j && #[trigger] deduped@[a] == sorted@[jj],
                deduped@.len() >= 1 ==> exists|jj: int|
                    0 <= jj < j && #[trigger] deduped@.last() == sorted@[jj],
            decreases m - j,
        {
            let item = sorted[j];
            let dup = if deduped.len() > 0 {
                let last = deduped[deduped.len() - 1];
                last.1.position == item.1.position && match (last.1.anchor, item.1.anchor) {
                    (Some(a), Some(b)) => a == b,
                    (None, None) => true,
                    _ => false,
                }
            } else {
                false
            };
            if !dup {
                let ghost before = deduped@;
                deduped.push(item);
                proof {
                    assert(deduped@.last() == sorted@[j as int]);
                    assert forall|a: int, b: int|
                        0 <= a < b < deduped@.len() implies (#[trigger] deduped@[a]).1.selection_start_spec()
                        <= (#[trigger] deduped@[b]).1.selection_start_spec() by {
                        assert(deduped@[a] == before[a]);
                        if b == deduped@.len() - 1 {
                            let jj = choose|jj: int|
                                0 <= jj < j && #[trigger] before[a] == sorted@[jj];
                            assert(sorted@[jj].1.selection_start_spec()
                                <= sorted@[j as int].1.selection_start_spec());
                        } else {
                            assert(deduped@[b] == before[b]);
                        }
                    }
                    assert forall|a: int, b: int|
                        0 <= a < b < deduped@.len() implies deduped@[a].0 != deduped@[b].0 by {
                        assert(deduped@[a] == before[a]);
                        if b == deduped@.len() - 1 {
                            let jj = choose|jj: int|
                                0 <= jj < j && #[trigger] before[a] == sorted@[jj];
                            assert(sorted@[jj].0 != sorted@[j as int].0);
                        } else {
                            assert(deduped@[b] == before[b]);
                        }
                    }
                    assert forall|a: int| 0 <= a < deduped@.len() implies exists|jj: int|
                        0 <= jj < j + 1 && #[trigger] deduped@[a] == sorted@[jj] by {
                        if a < deduped@.len() - 1 {
                            assert(deduped@[a] == before[a]);
                        } else {
                            assert(deduped@[a] == sorted@[j as int]);
                        }
                    }
                }
            }
            j = j + 1;
        }
        proof {
            if n >= 1 && deduped@.len() == 0 {
                assert(false);
            }
        }
        let ghost old_list = self.list@;
        self.list = deduped;
        proof {
            assert forall|a: int| 0 <= a < self.list@.len() implies (
            #[trigger] self.list@[a].0).0 < self.next_id by {
                let jj = choose|jj: int|
                    0 <= jj < sorted@.len() && #[trigger] self.list@[a] == sorted@[jj];
                let jo = choose|jo: int|
                    0 <= jo < old_list.len() && #[trigger] sorted@[jj] == old_list[jo];
                assert(old_list[jo].0.0 < self.next_id);
            }
            assert forall|a: int| 0 <= a < self.list@.len() implies exists|jo: int|
                0 <= jo < old_list.len() && #[trigger] self.list@[a] == old_list[jo] by {
                let jj = choose|jj: int|
                    0 <= jj < sorted@.len() && #[trigger] self.list@[a] == sorted@[jj];
                let jo = choose|jo: int|
                    0 <= jo < old_list.len() && #[trigger] sorted@[jj] == old_list[jo];
            }
        }
        // Keep the primary id valid.
        match self.find(self.primary_id) {
            Some(_) => {},
            None => {
                let new_primary = self.list[0].0;
                self.primary_id = new_primary;
                proof {
                    lemma_cursor_idx_unique(self.list@, new_primary, 0);
                }
            },
        }
    }

    /// All cursor positions, in list order.
    pub fn positions(&self) -> (r: Vec<usize>)
        ensures
            r@.len() == self.cursors_seq().len(),
            forall|i: int|
                0 <= i < r@.len() ==> #[trigger] r@[i] == self.cursors_seq()[i].1.position,
    {
        let n = self.list.len();
        let mut out: Vec<usize> = Vec::new();
        let mut i: usize = 0;
        while i < n
            invariant
                i <= n == self.list@.len(),
                out@.len() == i,
                forall|j: int| 0 <= j < i ==> #[trigger] out@[j] == self.list@[j].1.position,
            decreases n - i,
        {
            out.push(self.list[i].1.position);
            i = i + 1;
        }
        out
    }

    /// All active selection ranges, in list order.
    pub fn selections(&self) -> (r: Vec<core::ops::Range<usize>>)
        ensures
            forall|i: int|
                0 <= i < r@.len() ==> (#[trigger] r@[i]).start <= r@[i].end,
    {
        let n = self.list.len();
        let mut out: Vec<core::ops::Range<usize>> = Vec::new();
        let mut i: usize = 0;
        while i < n
            invariant
                i <= n == self.list@.len(),
                forall|j: int| 0 <= j < out@.len() ==> (#[trigger] out@[j]).start <= out@[j].end,
            decreases n - i,
        {
            match self.list[i].1.selection_range() {
                Some(range) => {
                    out.push(range);
                },
                None => {},
            }
            i = i + 1;
        }
        out
    }
}

} // verus!
