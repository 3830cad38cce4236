//! The ordered byte sequence underlying a buffer.
//!
//! A `TextStore` is a value: `insert` and `remove` return a new logical
//! version and leave the receiver untouched.  The buffer layer owns one
//! store at a time and replaces it wholesale on every edit.

use vstd::prelude::*;

verus! {

/// An ordered sequence of bytes with random access, ranged reads and
/// whole-content materialization.
pub struct TextStore {
    bytes: Vec<u8>,
}

impl View for TextStore {
    type V = Seq<u8>;

    closed spec fn view(&self) -> Seq<u8> {
        self.bytes@
    }
}

impl TextStore {
    /// An empty store.
    pub fn new() -> (r: TextStore)
        ensures
            r@ == Seq::<u8>::empty(),
    {
        TextStore { bytes: Vec::new() }
    }

    /// A store holding exactly the given bytes.
    pub fn from_vec(bytes: Vec<u8>) -> (r: TextStore)
        ensures
            r@ == bytes@,
    {
        TextStore { bytes }
    }

    /// Total length in bytes.
    pub fn len(&self) -> (r: usize)
        ensures
            r == self@.len(),
    {
        self.bytes.len()
    }

    /// The byte at a position.
    pub fn get(&self, pos: usize) -> (r: u8)
        requires
            pos < self@.len(),
        ensures
            r == self@[pos as int],
    {
        self.bytes[pos]
    }

    /// A new store with `data` inserted at byte position `pos`.
    pub fn insert(&self, pos: usize, data: &[u8]) -> (r: TextStore)
        requires
            pos <= self@.len(),
        ensures
            r@ == self@.subrange(0, pos as int) + data@ + self@.subrange(
                pos as int,
                self@.len() as int,
            ),
    {
        let mut out: Vec<u8> = Vec::new();
        let mut i: usize = 0;
        while i < pos
            invariant
                i <= pos <= self@.len(),
                out@ == self@.subrange(0, i as int),
            decreases pos - i,
        {
            out.push(self.bytes[i]);
            assert(out@ =~= self@.subrange(0, i + 1 as int));
            i = i + 1;
        }
        let mut j: usize = 0;
        while j < data.len()
            invariant
                j <= data@.len(),
                pos <= self@.len(),
                out@ == self@.subrange(0, pos as int) + data@.subrange(0, j as int),
            decreases data@.len() - j,
        {
            out.push(data[j]);
            assert(out@ =~= self@.subrange(0, pos as int) + data@.subrange(0, j + 1 as int));
            j = j + 1;
        }
        let mut k: usize = pos;
        while k < self.bytes.len()
            invariant
                pos <= k <= self@.len(),
                out@ == self@.subrange(0, pos as int) + data@ + self@.subrange(
                    pos as int,
                    k as int,
                ),
            decreases self@.len() - k,
        {
            out.push(self.bytes[k]);
            assert(out@ =~= self@.subrange(0, pos as int) + data@ + self@.subrange(
                pos as int,
                k + 1 as int,
            ));
            k = k + 1;
        }
        assert(data@.subrange(0, data@.len() as int) =~= data@);
        TextStore { bytes: out }
    }

    /// A new store with the byte range `[start, end)` removed.
    pub fn remove(&self, start: usize, end: usize) -> (r: TextStore)
        requires
            start <= end <= self@.len(),
        ensures
            r@ == self@.subrange(0, start as int) + self@.subrange(
                end as int,
                self@.len() as int,
            ),
    {
        let mut out: Vec<u8> = Vec::new();
        let mut i: usize = 0;
        while i < start
            invariant
                i <= start <= self@.len(),
                out@ == self@.subrange(0, i as int),
            decreases start - i,
        {
            out.push(self.bytes[i]);
            assert(out@ =~= self@.subrange(0, i + 1 as int));
            i = i + 1;
        }
        let mut k: usize = end;
        while k < self.bytes.len()
            invariant
                end <= k <= self@.len(),
                start <= end,
                out@ == self@.subrange(0, start as int) + self@.subrange(end as int, k as int),
            decreases self@.len() - k,
        {
            out.push(self.bytes[k]);
            assert(out@ =~= self@.subrange(0, start as int) + self@.subrange(
                end as int,
                k + 1 as int,
            ));
            k = k + 1;
        }
        TextStore { bytes: out }
    }

    /// The bytes of the range `[start, end)`.
    pub fn bytes_range(&self, start: usize, end: usize) -> (r: Vec<u8>)
        requires
            start <= end <= self@.len(),
        ensures
            r@ == self@.subrange(start as int, end as int),
    {
        let mut out: Vec<u8> = Vec::new();
        let mut i: usize = start;
        while i < end
            invariant
                start <= i <= end <= self@.len(),
                out@ == self@.subrange(start as int, i as int),
            decreases end - i,
        {
            out.push(self.bytes[i]);
            assert(out@ =~= self@.subrange(start as int, i + 1 as int));
            i = i + 1;
        }
        out
    }

    /// All the bytes of the store.
    pub fn collect(&self) -> (r: Vec<u8>)
        ensures
            r@ == self@,
    {
        let r = self.bytes_range(0, self.bytes.len());
        assert(self@.subrange(0, self@.len() as int) =~= self@);
        r
    }
}

impl Clone for TextStore {
    fn clone(&self) -> (r: TextStore)
        ensures
            r@ == self@,
    {
        TextStore { bytes: self.bytes.clone() }
    }
}

} // verus!
