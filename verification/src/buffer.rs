//! Line-indexed text buffer.
//!
//! A `Buffer` owns one [`TextStore`](crate::text_store::TextStore) plus an
//! incrementally built line cache: a vector of the byte offsets at which
//! lines start, valid for the scanned prefix of the content.  Queries may
//! extend the scanned prefix; edits reset it, which is the simplest policy
//! that keeps every cached offset exact.

use crate::text_store::TextStore;
use vstd::prelude::*;
use vstd::string::StrSliceExecFns;
use vstd::string::StringSliceAdditionalSpecFns;

verus! {

/// The line terminator byte.
pub const NL: u8 = 10;

/// Number of newline bytes in `s`.
pub open spec fn count_nl(s: Seq<u8>) -> nat
    decreases s.len(),
{
    if s.len() == 0 {
        0
    } else {
        count_nl(s.drop_last()) + (if s.last() == NL {
            1nat
        } else {
            0nat
        })
    }
}

/// The byte offsets at which lines of `s` start: 0, and `i + 1` for every
/// newline at offset `i`, in increasing order.
pub open spec fn line_starts_spec(s: Seq<u8>) -> Seq<int>
    decreases s.len(),
{
    if s.len() == 0 {
        seq![0int]
    } else if s.last() == NL {
        line_starts_spec(s.drop_last()).push(s.len() as int)
    } else {
        line_starts_spec(s.drop_last())
    }
}

/// How many entries of `starts` are at most `b`.
pub open spec fn num_starts_le(starts: Seq<int>, b: int) -> nat
    decreases starts.len(),
{
    if starts.len() == 0 {
        0
    } else {
        num_starts_le(starts.drop_last(), b) + (if starts.last() <= b {
            1nat
        } else {
            0nat
        })
    }
}

/// The line containing byte offset `b` of `s`: the index of the last line
/// start at or before `b`.
pub open spec fn line_of_byte(s: Seq<u8>, b: int) -> int {
    num_starts_le(line_starts_spec(s), b) - 1
}

/// The number of lines of `s` (a trailing newline opens a final empty line).
pub open spec fn num_lines(s: Seq<u8>) -> nat {
    count_nl(s) + 1
}

/// The byte offset at which line `line` of `s` starts, or `s.len()` when
/// there is no such line.
pub open spec fn line_to_byte_spec(s: Seq<u8>, line: int) -> int {
    let ls = line_starts_spec(s);
    if 0 <= line < ls.len() {
        ls[line]
    } else {
        s.len() as int
    }
}

/// The bytes of line `line` of `s`, without its newline.
pub open spec fn line_text_range(s: Seq<u8>, line: int) -> Seq<u8> {
    let a = line_to_byte_spec(s, line);
    let b = line_to_byte_spec(s, line + 1);
    let e = if b >= s.len() {
        s.len() as int
    } else {
        b - 1
    };
    s.subrange(a, e)
}

pub proof fn lemma_count_nl_le_len(s: Seq<u8>)
    ensures
        count_nl(s) <= s.len(),
    decreases s.len(),
{
    if s.len() > 0 {
        lemma_count_nl_le_len(s.drop_last());
    }
}

/// The first newline at or after offset `b`, or the length of `s`.
pub open spec fn line_end_search(s: Seq<u8>, b: int) -> int
    decreases s.len() - b,
{
    if b >= s.len() {
        s.len() as int
    } else if s[b] == NL {
        b
    } else {
        line_end_search(s, b + 1)
    }
}

/// Searching backward from offset `b`, the start of the line containing
/// `b`: one past the nearest newline before `b`, or the search floor `lo`.
pub open spec fn line_start_search(s: Seq<u8>, b: int, lo: int) -> int
    decreases b - lo,
{
    if b <= lo {
        lo
    } else if s[b - 1] == NL {
        b
    } else {
        line_start_search(s, b - 1, lo)
    }
}

/// What `find_line_start_at_byte` returns: a backward search bounded to a
/// fixed window.
pub open spec fn find_line_start_spec(s: Seq<u8>, pos: int) -> int {
    let b = vstd::math::min(pos, s.len() as int);
    line_start_search(s, b, vstd::math::max(b - 100000, 0))
}

/// What `find_line_end_at_byte` returns.
pub open spec fn find_line_end_spec(s: Seq<u8>, pos: int) -> int {
    line_end_search(s, vstd::math::min(pos, s.len() as int))
}

/// The bytes of `s` in `[start, end)`, clamped as `slice_bytes` clamps.
pub open spec fn slice_bytes_spec(s: Seq<u8>, start: int, end: int) -> Seq<u8> {
    let len = s.len() as int;
    let a = vstd::math::min(start, len);
    let b = vstd::math::min(end, len);
    if a >= b {
        Seq::<u8>::empty()
    } else {
        s.subrange(a, b)
    }
}

/// A UTF-8 continuation byte.
pub open spec fn is_cont_byte(b: u8) -> bool {
    b & 0xC0 == 0x80
}

/// Index of the last byte of `bytes` that is not a continuation byte, or
/// -1 when every byte is one.
pub open spec fn last_non_cont(bytes: Seq<u8>) -> int
    decreases bytes.len(),
{
    if bytes.len() == 0 {
        -1
    } else if !is_cont_byte(bytes.last()) {
        bytes.len() - 1
    } else {
        last_non_cont(bytes.drop_last())
    }
}

/// Index of the first byte of `bytes` at or after `i` that is not a
/// continuation byte, or -1 when none is.
pub open spec fn first_non_cont_from(bytes: Seq<u8>, i: int) -> int
    decreases bytes.len() - i,
{
    if i >= bytes.len() {
        -1
    } else if !is_cont_byte(bytes[i]) {
        i
    } else {
        first_non_cont_from(bytes, i + 1)
    }
}

/// The nearest UTF-8 boundary strictly before `pos`: the last
/// non-continuation byte in the up-to-four bytes before `pos`, or simply
/// `pos - 1` when none is found there.
pub open spec fn prev_char_boundary_spec(s: Seq<u8>, pos: int) -> int {
    if pos <= 0 {
        0
    } else {
        let base = vstd::math::max(pos - 4, 0);
        let bytes = slice_bytes_spec(s, base, pos);
        let i = last_non_cont(bytes);
        if i >= 0 {
            vstd::math::min(base + i, pos - 1)
        } else {
            pos - 1
        }
    }
}

/// The nearest UTF-8 boundary strictly after `pos`: the first
/// non-continuation byte in the up-to-four bytes after `pos`, or simply
/// `pos + 1` (clamped) when none is found there.
pub open spec fn next_char_boundary_spec(s: Seq<u8>, pos: int) -> int {
    let len = s.len() as int;
    if pos >= len {
        len
    } else {
        let bytes = slice_bytes_spec(s, pos, vstd::math::min(pos + 4, len));
        let i = first_non_cont_from(bytes, 1);
        if i >= 1 {
            pos + i
        } else {
            vstd::math::min(pos + 1, len)
        }
    }
}

/// The character index whose byte offset first reaches `pos`, scanning
/// from index `i` with `acc` bytes already consumed; 0 when the scan runs
/// out of characters first.
pub open spec fn char_index_at_byte(chars: Seq<char>, pos: int, i: int, acc: int) -> int
    decreases chars.len() - i,
{
    if i >= chars.len() {
        0
    } else if acc >= pos {
        i
    } else {
        char_index_at_byte(chars, pos, i + 1, acc + crate::strutil::char_len(chars[i]))
    }
}

/// Skip white space backward from character index `i` (stopping at 0).
pub open spec fn skip_ws_back(chars: Seq<char>, i: int) -> int
    decreases i,
{
    if i > 0 && crate::strutil::is_ws_char(chars[i]) {
        skip_ws_back(chars, i - 1)
    } else {
        i
    }
}

/// Skip word characters backward from character index `i` (stopping at 0).
pub open spec fn skip_word_back(chars: Seq<char>, i: int) -> int
    decreases i,
{
    if i > 0 && !crate::strutil::is_ws_char(chars[i]) {
        skip_word_back(chars, i - 1)
    } else {
        i
    }
}

/// Skip word characters forward from character index `i`.
pub open spec fn skip_word_fwd(chars: Seq<char>, i: int) -> int
    decreases chars.len() - i,
{
    if i < chars.len() && !crate::strutil::is_ws_char(chars[i]) {
        skip_word_fwd(chars, i + 1)
    } else {
        i
    }
}

/// Skip white space forward from character index `i`.
pub open spec fn skip_ws_fwd(chars: Seq<char>, i: int) -> int
    decreases chars.len() - i,
{
    if i < chars.len() && crate::strutil::is_ws_char(chars[i]) {
        skip_ws_fwd(chars, i + 1)
    } else {
        i
    }
}

/// The byte offset where the word before byte offset `pos` starts, over
/// the decoded characters `chars`: step back over white space, then over
/// the word, and convert back to bytes.
pub open spec fn prev_word_boundary_spec(chars: Seq<char>, pos: int) -> int {
    if pos <= 0 {
        0
    } else {
        let cp = char_index_at_byte(chars, pos, 0, 0);
        if cp == 0 {
            0
        } else {
            let i1 = skip_ws_back(chars, cp - 1);
            let i2 = skip_word_back(chars, i1);
            let i3 = if i2 > 0 || (chars.len() > 0 && crate::strutil::is_ws_char(chars[0])) {
                i2 + 1
            } else {
                i2
            };
            crate::strutil::utf8_prefix_len(chars, i3)
        }
    }
}

/// The byte offset where the word after byte offset `pos` ends, over the
/// decoded characters `chars`: step forward over the word, then over white
/// space, and convert back to bytes.
pub open spec fn next_word_boundary_spec(chars: Seq<char>, pos: int) -> int {
    let cp = char_index_at_byte(chars, pos, 0, 0);
    if cp >= chars.len() {
        crate::strutil::utf8_prefix_len(chars, chars.len() as int)
    } else {
        let i1 = skip_word_fwd(chars, cp);
        let i2 = skip_ws_fwd(chars, i1);
        crate::strutil::utf8_prefix_len(chars, i2)
    }
}

/// `pat` occurs in `s` at offset `i`.
pub open spec fn matches_at(s: Seq<u8>, pat: Seq<u8>, i: int) -> bool {
    0 <= i && i + pat.len() <= s.len() && s.subrange(i, i + pat.len() as int) == pat
}

pub proof fn lemma_line_end_search_bounds(s: Seq<u8>, b: int)
    requires
        0 <= b <= s.len(),
    ensures
        b <= line_end_search(s, b) <= s.len(),
    decreases s.len() - b,
{
    if b < s.len() && s[b] != NL {
        lemma_line_end_search_bounds(s, b + 1);
    }
}

pub proof fn lemma_line_start_search_bounds(s: Seq<u8>, b: int, lo: int)
    requires
        0 <= lo <= b <= s.len(),
    ensures
        lo <= line_start_search(s, b, lo) <= b,
    decreases b - lo,
{
    if b > lo && s[b - 1] != NL {
        lemma_line_start_search_bounds(s, b - 1, lo);
    }
}

pub proof fn lemma_line_starts_len(s: Seq<u8>)
    ensures
        line_starts_spec(s).len() == count_nl(s) + 1,
    decreases s.len(),
{
    if s.len() > 0 {
        lemma_line_starts_len(s.drop_last());
    }
}

pub proof fn lemma_line_starts_props(s: Seq<u8>)
    ensures
        line_starts_spec(s).len() >= 1,
        line_starts_spec(s)[0] == 0,
        forall|j: int, k: int|
            0 <= j < k < line_starts_spec(s).len() ==> line_starts_spec(s)[j]
                < line_starts_spec(s)[k],
        forall|j: int|
            0 <= j < line_starts_spec(s).len() ==> 0 <= #[trigger] line_starts_spec(s)[j]
                <= s.len(),
        forall|j: int|
            1 <= j < line_starts_spec(s).len() ==> s[#[trigger] line_starts_spec(s)[j] - 1] == NL,
    decreases s.len(),
{
    if s.len() > 0 {
        lemma_line_starts_props(s.drop_last());
        let prev = line_starts_spec(s.drop_last());
        assert(forall|j: int| 1 <= j < prev.len() ==> s.drop_last()[#[trigger] prev[j] - 1]
            == s[prev[j] - 1]);
    }
}

/// `line_starts_spec` of a prefix is a prefix of `line_starts_spec` of the
/// whole, and the entries beyond it lie past the prefix.
pub proof fn lemma_line_starts_prefix(s: Seq<u8>, u: int)
    requires
        0 <= u <= s.len(),
    ensures
        line_starts_spec(s.subrange(0, u)).len() <= line_starts_spec(s).len(),
        forall|j: int|
            0 <= j < line_starts_spec(s.subrange(0, u)).len() ==> #[trigger] line_starts_spec(s)[j]
                == line_starts_spec(s.subrange(0, u))[j],
        forall|j: int|
            line_starts_spec(s.subrange(0, u)).len() <= j < line_starts_spec(s).len()
                ==> #[trigger] line_starts_spec(s)[j] > u,
    decreases s.len(),
{
    if u == s.len() {
        assert(s.subrange(0, u) =~= s);
    } else {
        lemma_line_starts_prefix(s.drop_last(), u);
        assert(s.drop_last().subrange(0, u) =~= s.subrange(0, u));
        lemma_line_starts_props(s.drop_last());
        lemma_line_starts_props(s.subrange(0, u));
    }
}

/// For a sorted `starts`, `num_starts_le` counts an initial segment.
pub proof fn lemma_num_le_sorted(starts: Seq<int>, b: int)
    requires
        forall|j: int, k: int| 0 <= j < k < starts.len() ==> starts[j] < starts[k],
    ensures
        num_starts_le(starts, b) <= starts.len(),
        forall|j: int|
            0 <= j < starts.len() ==> ((#[trigger] starts[j] <= b) <==> j < num_starts_le(
                starts,
                b,
            )),
    decreases starts.len(),
{
    if starts.len() > 0 {
        let d = starts.drop_last();
        let n = starts.len() as int;
        assert(forall|j: int| 0 <= j < d.len() ==> #[trigger] d[j] == starts[j]);
        assert forall|j: int, k: int| 0 <= j < k < d.len() implies d[j] < d[k] by {
            assert(starts[j] < starts[k]);
        }
        lemma_num_le_sorted(d, b);
        if starts.last() <= b {
            assert forall|j: int| 0 <= j < n - 1 implies #[trigger] d[j] <= b by {
                assert(starts[j] < starts[n - 1]);
            }
            assert forall|j: int| 0 <= j < d.len() implies #[trigger] d[j] <= b && j
                < num_starts_le(d, b) by {
                assert(d[j] <= b);
            }
            assert(num_starts_le(d, b) == d.len());
            assert forall|j: int| 0 <= j < n implies ((#[trigger] starts[j] <= b) <==> j
                < num_starts_le(starts, b)) by {
                if j < n - 1 {
                    assert(starts[j] == d[j]);
                }
            }
        } else {
            assert(num_starts_le(starts, b) == num_starts_le(d, b));
            assert forall|j: int| 0 <= j < n implies ((#[trigger] starts[j] <= b) <==> j
                < num_starts_le(starts, b)) by {
                if j < n - 1 {
                    assert(starts[j] == d[j]);
                    assert(d[j] <= b <==> j < num_starts_le(d, b));
                } else {
                    assert(starts[j] == starts.last());
                    assert(num_starts_le(d, b) <= d.len());
                }
            }
        }
    }
}

/// A strictly increasing sequence of offsets starting at 0 grows at least
/// as fast as its indices.
proof fn lemma_sorted_ge_index(ls: Seq<int>, j: int)
    requires
        ls.len() >= 1,
        ls[0] == 0,
        forall|a: int, b: int| 0 <= a < b < ls.len() ==> ls[a] < ls[b],
        0 <= j < ls.len(),
    ensures
        ls[j] >= j,
    decreases j,
{
    if j > 0 {
        lemma_sorted_ge_index(ls, j - 1);
        assert(ls[j - 1] < ls[j]);
    }
}

/// The line containing byte `b` is never numbered past `b` itself.
pub proof fn lemma_line_of_byte_le(s: Seq<u8>, b: int)
    requires
        b >= 0,
    ensures
        0 <= line_of_byte(s, b) <= b,
{
    lemma_line_starts_props(s);
    let ls = line_starts_spec(s);
    lemma_num_le_sorted(ls, b);
    let n = num_starts_le(ls, b);
    assert(ls[0] <= b);
    assert(n >= 1);
    lemma_sorted_ge_index(ls, n - 1);
    assert(ls[n - 1] <= b);
}

/// Counting line starts at or before `b` gives the same answer over any
/// scanned prefix that reaches `b`.
pub proof fn lemma_line_of_byte_prefix(s: Seq<u8>, u: int, b: int)
    requires
        0 <= b <= u <= s.len(),
    ensures
        line_of_byte(s, b) == num_starts_le(line_starts_spec(s.subrange(0, u)), b) - 1,
{
    lemma_line_starts_prefix(s, u);
    lemma_line_starts_props(s);
    lemma_line_starts_props(s.subrange(0, u));
    let full = line_starts_spec(s);
    let pre = line_starts_spec(s.subrange(0, u));
    lemma_num_le_sorted(full, b);
    lemma_num_le_sorted(pre, b);
    let nf = num_starts_le(full, b);
    let np = num_starts_le(pre, b);
    // Entries of the common prefix agree; entries beyond `pre` exceed u >= b.
    if nf > np {
        if nf - 1 < pre.len() {
            assert(pre[nf - 1] == full[nf - 1]);
        } else {
            assert(full[nf - 1] > u);
        }
    }
    if np > nf {
        assert(full[np - 1] == pre[np - 1]);
    }
}

/// Growing the scanned prefix by one byte extends the line starts exactly
/// when that byte is a newline.
pub proof fn lemma_line_starts_step(s: Seq<u8>, i: int)
    requires
        0 <= i < s.len(),
    ensures
        line_starts_spec(s.subrange(0, i + 1)) == if s[i] == NL {
            line_starts_spec(s.subrange(0, i)).push(i + 1)
        } else {
            line_starts_spec(s.subrange(0, i))
        },
{
    let t = s.subrange(0, i + 1);
    assert(t.drop_last() =~= s.subrange(0, i));
    assert(t.last() == s[i]);
}

pub proof fn lemma_count_nl_concat(a: Seq<u8>, b: Seq<u8>)
    ensures
        count_nl(a + b) == count_nl(a) + count_nl(b),
    decreases b.len(),
{
    if b.len() == 0 {
        assert(a + b =~= a);
    } else {
        assert((a + b).drop_last() =~= a + b.drop_last());
        lemma_count_nl_concat(a, b.drop_last());
    }
}

/// Inserting bytes at position `p` of `t` and then deleting exactly the
/// inserted byte range restores `t`.  This is the shape
/// [`Buffer::insert`] gives the content, undone by [`Buffer::delete`] of
/// `[p, p + |s|)`.
pub proof fn lemma_insert_then_delete_restores(t: Seq<u8>, s: Seq<u8>, p: int)
    requires
        0 <= p <= t.len(),
    ensures
        ({
            let inserted = t.subrange(0, p) + s + t.subrange(p, t.len() as int);
            inserted.subrange(0, p) + inserted.subrange(p + s.len(), inserted.len() as int) == t
        }),
{
    let inserted = t.subrange(0, p) + s + t.subrange(p, t.len() as int);
    assert(inserted.subrange(0, p) =~= t.subrange(0, p));
    assert(inserted.subrange(p + s.len(), inserted.len() as int) =~= t.subrange(
        p,
        t.len() as int,
    ));
    assert(inserted.subrange(0, p) + inserted.subrange(p + s.len(), inserted.len() as int) =~= t);
}

/// In content whose lines are all classified, converting a line number to
/// its start byte and back yields the same line number.
pub proof fn lemma_line_byte_roundtrip(s: Seq<u8>, line: int)
    requires
        0 <= line < line_starts_spec(s).len(),
    ensures
        line_of_byte(s, line_to_byte_spec(s, line)) == line,
{
    lemma_line_starts_props(s);
    let ls = line_starts_spec(s);
    let b = ls[line];
    lemma_num_le_sorted(ls, b);
    let n = num_starts_le(ls, b);
    assert(ls[line] <= b);
    assert(line < n);
    if line + 1 < ls.len() {
        assert(ls[line + 1] > b);
        assert(n <= line + 1);
    }
}

/// Deleting a byte range never increases the number of lines.
pub proof fn lemma_delete_never_adds_lines(s: Seq<u8>, a: int, b: int)
    requires
        0 <= a <= b <= s.len(),
    ensures
        num_lines(s.subrange(0, a) + s.subrange(b, s.len() as int)) <= num_lines(s),
{
    let pre = s.subrange(0, a);
    let mid = s.subrange(a, b);
    let post = s.subrange(b, s.len() as int);
    assert(s =~= pre + mid + post);
    lemma_count_nl_concat(pre + mid, post);
    lemma_count_nl_concat(pre, mid);
    lemma_count_nl_concat(pre, post);
}

/// Writing a buffer's valid UTF-8 content out as text and reading that
/// text back reproduces the content byte-for-byte: the decoding
/// [`Buffer::to_string`] performs is undone exactly by the encoding
/// [`Buffer::from_str`] performs.
pub proof fn lemma_save_load_roundtrip(s: Seq<u8>)
    requires
        vstd::utf8::valid_utf8(s),
    ensures
        vstd::utf8::encode_utf8(vstd::utf8::decode_utf8(s)) == s,
{
    vstd::utf8::decode_utf8_encode_utf8(s);
}

/// The cached prefix of the line index: `line_starts` lists every line
/// start within the first `scanned_up_to` bytes of the content.
struct LineCache {
    line_starts: Vec<usize>,
    fully_scanned: bool,
    scanned_up_to: usize,
}

/// Integer image of a vector of offsets.
pub open spec fn starts_int(v: Seq<usize>) -> Seq<int> {
    v.map_values(|x: usize| x as int)
}

impl LineCache {
    /// The cache is exactly the line starts of the scanned prefix.
    spec fn wf(&self, content: Seq<u8>) -> bool {
        &&& self.scanned_up_to <= content.len()
        &&& starts_int(self.line_starts@) == line_starts_spec(
            content.subrange(0, self.scanned_up_to as int),
        )
        &&& (self.fully_scanned ==> self.scanned_up_to == content.len())
    }
}

/// The character index whose running byte offset first reaches `pos`, or 0
/// when the scan runs out of characters.
fn char_index_of_byte_pos(chars: &Vec<char>, pos: usize) -> (r: usize)
    requires
        vstd::utf8::encode_utf8(chars@).len() <= usize::MAX,
    ensures
        r == char_index_at_byte(chars@, pos as int, 0, 0),
        r == 0 || r < chars@.len(),
{
    let n = chars.len();
    let mut byte_count: usize = 0;
    let mut i: usize = 0;
    proof {
        assert(chars@.subrange(0, 0) =~= Seq::<char>::empty());
        assert(vstd::utf8::encode_utf8(Seq::<char>::empty()) =~= Seq::<u8>::empty());
    }
    while i < n
        invariant
            i <= n == chars@.len(),
            vstd::utf8::encode_utf8(chars@).len() <= usize::MAX,
            byte_count == crate::strutil::utf8_prefix_len(chars@, i as int),
            char_index_at_byte(chars@, pos as int, 0, 0) == char_index_at_byte(
                chars@,
                pos as int,
                i as int,
                byte_count as int,
            ),
        decreases n - i,
    {
        if byte_count >= pos {
            proof {
                assert(char_index_at_byte(chars@, pos as int, i as int, byte_count as int) == i);
            }
            return i;
        }
        let cl = crate::strutil::char_utf8_len(chars[i]);
        proof {
            crate::strutil::lemma_utf8_prefix_step(chars@, i as int);
            crate::strutil::lemma_utf8_prefix_le_total(chars@, i + 1 as int);
            assert(char_index_at_byte(chars@, pos as int, i as int, byte_count as int)
                == char_index_at_byte(chars@, pos as int, i + 1 as int, byte_count + cl as int));
        }
        byte_count = byte_count + cl;
        i = i + 1;
    }
    proof {
        assert(char_index_at_byte(chars@, pos as int, i as int, byte_count as int) == 0);
    }
    0
}

/// The byte length of the UTF-8 encoding of the first `k` characters.
fn utf8_prefix_bytes(chars: &Vec<char>, k: usize) -> (r: usize)
    requires
        k <= chars@.len(),
        vstd::utf8::encode_utf8(chars@).len() <= usize::MAX,
    ensures
        r == crate::strutil::utf8_prefix_len(chars@, k as int),
{
    let mut acc: usize = 0;
    let mut i: usize = 0;
    proof {
        assert(chars@.subrange(0, 0) =~= Seq::<char>::empty());
        assert(vstd::utf8::encode_utf8(Seq::<char>::empty()) =~= Seq::<u8>::empty());
    }
    while i < k
        invariant
            i <= k <= chars@.len(),
            vstd::utf8::encode_utf8(chars@).len() <= usize::MAX,
            acc == crate::strutil::utf8_prefix_len(chars@, i as int),
        decreases k - i,
    {
        let cl = crate::strutil::char_utf8_len(chars[i]);
        proof {
            crate::strutil::lemma_utf8_prefix_step(chars@, i as int);
            crate::strutil::lemma_utf8_prefix_le_total(chars@, i + 1 as int);
        }
        acc = acc + cl;
        i = i + 1;
    }
    acc
}

/// A match of `p` inside the window `[lo, hi)` of `s` is exactly a match of
/// `p` in that window taken as its own sequence, shifted by `lo`.
proof fn lemma_matches_shift(s: Seq<u8>, p: Seq<u8>, lo: int, hi: int, w: Seq<u8>)
    requires
        0 <= lo <= hi <= s.len(),
        w == s.subrange(lo, hi),
    ensures
        forall|j: int|
            lo <= j && j + p.len() <= hi ==> (#[trigger] matches_at(s, p, j) <==> matches_at(
                w,
                p,
                j - lo,
            )),
        forall|off: int|
            #[trigger] matches_at(w, p, off) ==> matches_at(s, p, lo + off) && lo + off + p.len()
                <= hi,
{
    assert forall|j: int| lo <= j && j + p.len() <= hi implies (#[trigger] matches_at(s, p, j)
        <==> matches_at(w, p, j - lo)) by {
        assert(w.subrange(j - lo, j - lo + p.len() as int) =~= s.subrange(j, j + p.len() as int));
    }
    assert forall|off: int| #[trigger] matches_at(w, p, off) implies matches_at(s, p, lo + off)
        && lo + off + p.len() <= hi by {
        assert(w.subrange(off, off + p.len() as int) =~= s.subrange(
            lo + off,
            lo + off + p.len() as int,
        ));
    }
}

/// First occurrence of `needle` in `haystack`, by naive scan; `None` for an
/// empty needle.
fn find_pattern(haystack: &Vec<u8>, needle: &Vec<u8>) -> (r: Option<usize>)
    ensures
        needle@.len() == 0 ==> r is None,
        match r {
            Some(i) => matches_at(haystack@, needle@, i as int) && (forall|j: int|
                0 <= j < i ==> !matches_at(haystack@, needle@, j)),
            None => needle@.len() > 0 ==> forall|j: int| !matches_at(haystack@, needle@, j),
        },
{
    let nl = needle.len();
    let hl = haystack.len();
    if nl == 0 || hl < nl {
        return None;
    }
    let mut i: usize = 0;
    while i <= hl - nl
        invariant
            nl == needle@.len() > 0,
            hl == haystack@.len() >= nl,
            i <= hl - nl + 1,
            forall|j: int| 0 <= j < i ==> !matches_at(haystack@, needle@, j),
        decreases hl - i,
    {
        let mut k: usize = 0;
        let mut eq = true;
        while k < nl && eq
            invariant
                nl == needle@.len(),
                hl == haystack@.len(),
                i + nl <= hl,
                k <= nl,
                eq == (haystack@.subrange(i as int, i + k as int) =~= needle@.subrange(
                    0,
                    k as int,
                )),
            decreases nl - k,
        {
            let ghost hk = haystack@.subrange(i as int, i + k as int);
            let ghost nk = needle@.subrange(0, k as int);
            if haystack[i + k] != needle[k] {
                eq = false;
            }
            proof {
                let h1 = haystack@.subrange(i as int, i + k + 1 as int);
                let n1 = needle@.subrange(0, k + 1 as int);
                assert(h1.drop_last() =~= hk);
                assert(n1.drop_last() =~= nk);
                assert(h1.last() == haystack@[i + k]);
                assert(n1.last() == needle@[k as int]);
                if hk =~= nk && haystack@[i + k] == needle@[k as int] {
                    assert(h1 =~= n1);
                } else {
                    assert(!(h1 =~= n1));
                }
            }
            k = k + 1;
        }
        if eq && k == nl {
            proof {
                assert(needle@.subrange(0, nl as int) =~= needle@);
            }
            return Some(i);
        }
        proof {
            if matches_at(haystack@, needle@, i as int) {
                let full = haystack@.subrange(i as int, i + nl as int);
                assert(full == needle@);
                assert forall|x: int| 0 <= x < k implies #[trigger] haystack@.subrange(
                    i as int,
                    i + k as int,
                )[x] == needle@.subrange(0, k as int)[x] by {
                    assert(haystack@.subrange(i as int, i + k as int)[x] == haystack@[i + x]);
                    assert(full[x] == haystack@[i + x]);
                    assert(needle@.subrange(0, k as int)[x] == needle@[x]);
                }
                assert(haystack@.subrange(i as int, i + k as int) =~= needle@.subrange(
                    0,
                    k as int,
                ));
                assert(false);
            }
        }
        i = i + 1;
    }
    proof {
        assert forall|j: int| !matches_at(haystack@, needle@, j) by {
            if 0 <= j && j + needle@.len() <= haystack@.len() {
                assert(j < i);
            }
        }
    }
    None
}

/// Index of the last entry of a sorted list of line starts that is at or
/// before `byte`; binary search.
fn cache_lookup_line(starts: &Vec<usize>, byte: usize) -> (r: usize)
    requires
        starts@.len() >= 1,
        starts@[0] == 0,
        forall|j: int, k: int| 0 <= j < k < starts@.len() ==> starts@[j] < starts@[k],
    ensures
        r == num_starts_le(starts_int(starts@), byte as int) - 1,
{
    let mut lo: usize = 0;
    let mut hi: usize = starts.len();
    while hi - lo > 1
        invariant
            0 <= lo < hi <= starts@.len(),
            starts@[lo as int] <= byte,
            hi < starts@.len() ==> starts@[hi as int] > byte,
            forall|j: int, k: int| 0 <= j < k < starts@.len() ==> starts@[j] < starts@[k],
        decreases hi - lo,
    {
        let mid = lo + (hi - lo) / 2;
        if starts[mid] <= byte {
            lo = mid;
        } else {
            hi = mid;
        }
    }
    proof {
        let si = starts_int(starts@);
        assert(forall|j: int| 0 <= j < si.len() ==> #[trigger] si[j] == starts@[j]);
        assert forall|j: int, k: int| 0 <= j < k < si.len() implies si[j] < si[k] by {
            assert(starts@[j] < starts@[k]);
        }
        lemma_num_le_sorted(si, byte as int);
        let n = num_starts_le(si, byte as int);
        assert(si[lo as int] <= byte as int);
        assert(lo < n);
        if lo + 1 < starts@.len() {
            assert(si[lo + 1] > byte as int);
            assert(n <= lo + 1);
        }
    }
    lo
}

/// A line number reported by the buffer: exact when the line cache has
/// scanned past the queried byte, otherwise an estimate extrapolated from
/// the average line length of the scanned prefix.
#[derive(Debug, Clone, Copy, PartialEq, Eq, Structural)]
pub enum LineNumber {
    /// The exact line number.
    Absolute(usize),
    /// An estimated line number, and the last cached line it was
    /// extrapolated from.
    Relative { line: usize, from_cached_line: usize },
}

impl LineNumber {
    /// The line number, exact or estimated.
    pub fn value(&self) -> (r: usize)
        ensures
            r == match *self {
                LineNumber::Absolute(line) => line,
                LineNumber::Relative { line, .. } => line,
            },
    {
        match self {
            LineNumber::Absolute(line) => *line,
            LineNumber::Relative { line, .. } => *line,
        }
    }

    /// True for an exact line number.
    pub fn is_absolute(&self) -> (r: bool)
        ensures
            r == (*self matches LineNumber::Absolute(_)),
    {
        match self {
            LineNumber::Absolute(_) => true,
            _ => false,
        }
    }

    /// The line number value, exact or estimated.
    pub open spec fn value_spec(&self) -> int {
        match *self {
            LineNumber::Absolute(line) => line as int,
            LineNumber::Relative { line, .. } => line as int,
        }
    }

    /// The line number formatted for display, 1-indexed; an estimate is
    /// prefixed with `~`.
    pub fn format(&self) -> (r: String)
        requires
            self.value_spec() < usize::MAX,
        ensures
            r@ == match *self {
                LineNumber::Absolute(line) => crate::strutil::dec_str((line + 1) as nat),
                LineNumber::Relative { line, .. } => seq!['~'] + crate::strutil::dec_str(
                    (line + 1) as nat,
                ),
            },
    {
        match self {
            LineNumber::Absolute(line) => crate::strutil::usize_to_string(*line + 1),
            LineNumber::Relative { line, .. } => {
                let mut out = String::new();
                proof {
                    reveal_strlit("~");
                    assert("~"@ =~= seq!['~']);
                }
                out.append("~");
                let digits = crate::strutil::usize_to_string(*line + 1);
                out.append(digits.as_str());
                proof {
                    assert(out@ =~= seq!['~'] + crate::strutil::dec_str((*line + 1) as nat));
                }
                out
            },
        }
    }

    /// True for an estimated line number.
    pub fn is_relative(&self) -> (r: bool)
        ensures
            r == (*self matches LineNumber::Relative { .. }),
    {
        match self {
            LineNumber::Relative { .. } => true,
            _ => false,
        }
    }
}

/// A text buffer with a lazily scanned line index, a file-path option and a
/// modified flag.
pub struct Buffer {
    content: TextStore,
    line_cache: LineCache,
    file_path: Option<String>,
    modified: bool,
}

impl View for Buffer {
    type V = Seq<u8>;

    closed spec fn view(&self) -> Seq<u8> {
        self.content@
    }
}

impl Buffer {
    /// The buffer's internal invariant: the line cache matches the content.
    pub closed spec fn wf(&self) -> bool {
        self.line_cache.wf(self.content@)
    }

    /// How far the line cache has scanned.
    pub closed spec fn scanned_to(&self) -> int {
        self.scanned_up_to_field() as int
    }

    closed spec fn scanned_up_to_field(&self) -> usize {
        self.line_cache.scanned_up_to
    }

    /// Whether the line cache covers the whole content.
    pub closed spec fn is_fully_scanned(&self) -> bool {
        self.line_cache.fully_scanned
    }

    /// The cached line starts, as integers.
    pub closed spec fn cached_line_starts(&self) -> Seq<int> {
        starts_int(self.line_cache.line_starts@)
    }

    /// The buffer's file path, if set.
    pub closed spec fn path_spec(&self) -> Option<String> {
        self.file_path
    }

    /// The modified flag.
    pub closed spec fn modified_spec(&self) -> bool {
        self.modified
    }

    /// What a well-formed buffer's cache holds: exactly the line starts of
    /// the scanned prefix, which never extends past the content.
    pub proof fn lemma_wf_cache(&self)
        requires
            self.wf(),
        ensures
            0 <= self.scanned_to() <= self@.len(),
            self.cached_line_starts() == line_starts_spec(self@.subrange(0, self.scanned_to())),
            self.is_fully_scanned() ==> self.scanned_to() == self@.len(),
    {
    }

    /// A new empty buffer.
    pub fn new() -> (r: Buffer)
        ensures
            r@ == Seq::<u8>::empty(),
            r.wf(),
            !r.modified_spec(),
            r.path_spec() is None,
            r.scanned_to() == 0,
            r.is_fully_scanned(),
    {
        let mut starts: Vec<usize> = Vec::new();
        starts.push(0);
        let r = Buffer {
            content: TextStore::new(),
            line_cache: LineCache { line_starts: starts, fully_scanned: true, scanned_up_to: 0 },
            file_path: None,
            modified: false,
        };
        proof {
            assert(r@.subrange(0, 0) =~= Seq::<u8>::empty());
            assert(starts_int(r.line_cache.line_starts@) =~= seq![0int]);
        }
        r
    }

    /// A buffer holding the UTF-8 bytes of `s`, with a fully scanned line
    /// cache.
    pub fn from_str(s: &str) -> (r: Buffer)
        ensures
            r@ == s.spec_bytes(),
            r.wf(),
            !r.modified_spec(),
            r.path_spec() is None,
            r.is_fully_scanned(),
            r.scanned_to() == r@.len(),
    {
        let bytes = s.as_bytes_vec();
        Buffer::from_bytes_scanned(bytes)
    }

    /// A buffer holding exactly `bytes`, with a fully scanned line cache.
    pub fn from_bytes_scanned(bytes: Vec<u8>) -> (r: Buffer)
        ensures
            r@ == bytes@,
            r.wf(),
            !r.modified_spec(),
            r.path_spec() is None,
            r.is_fully_scanned(),
            r.scanned_to() == r@.len(),
    {
        let mut starts: Vec<usize> = Vec::new();
        starts.push(0);
        let n = bytes.len();
        let mut i: usize = 0;
        proof {
            assert(starts_int(starts@) =~= line_starts_spec(bytes@.subrange(0, 0)));
        }
        while i < n
            invariant
                i <= n == bytes@.len(),
                starts_int(starts@) == line_starts_spec(bytes@.subrange(0, i as int)),
            decreases n - i,
        {
            if bytes[i] == NL {
                starts.push(i + 1);
            }
            proof {
                lemma_line_starts_step(bytes@, i as int);
                if bytes@[i as int] == NL {
                    assert(starts_int(starts@) =~= line_starts_spec(
                        bytes@.subrange(0, i as int),
                    ).push(i + 1));
                } else {
                    assert(starts_int(starts@) =~= line_starts_spec(bytes@.subrange(0, i as int)));
                }
            }
            i = i + 1;
        }
        let r = Buffer {
            content: TextStore::from_vec(bytes),
            line_cache: LineCache { line_starts: starts, fully_scanned: true, scanned_up_to: n },
            file_path: None,
            modified: false,
        };
        proof {
            assert(r@.subrange(0, n as int) =~= r@);
        }
        r
    }

    /// A buffer holding exactly `bytes`, with a line cache that has scanned
    /// nothing yet; line queries will scan on demand.  This is the
    /// constructor for large contents loaded in chunks.
    pub fn from_bytes(bytes: Vec<u8>) -> (r: Buffer)
        ensures
            r@ == bytes@,
            r.wf(),
            !r.modified_spec(),
            r.path_spec() is None,
            !r.is_fully_scanned(),
            r.scanned_to() == 0,
    {
        let mut starts: Vec<usize> = Vec::new();
        starts.push(0);
        let r = Buffer {
            content: TextStore::from_vec(bytes),
            line_cache: LineCache { line_starts: starts, fully_scanned: false, scanned_up_to: 0 },
            file_path: None,
            modified: false,
        };
        proof {
            assert(r@.subrange(0, 0) =~= Seq::<u8>::empty());
            assert(starts_int(r.line_cache.line_starts@) =~= seq![0int]);
        }
        r
    }

    /// Total length in bytes.
    pub fn len(&self) -> (r: usize)
        ensures
            r == self@.len(),
    {
        self.content.len()
    }

    /// True when the buffer holds no bytes.
    pub fn is_empty(&self) -> (r: bool)
        ensures
            r == (self@.len() == 0),
    {
        self.len() == 0
    }

    /// Reset the line cache after an edit: nothing is scanned any more.
    fn invalidate_cache(&mut self)
        ensures
            final(self)@ == old(self)@,
            final(self).wf(),
            final(self).scanned_to() == 0,
            !final(self).is_fully_scanned(),
            final(self).modified_spec() == old(self).modified_spec(),
            final(self).path_spec() == old(self).path_spec(),
    {
        let mut starts: Vec<usize> = Vec::new();
        starts.push(0);
        self.line_cache = LineCache { line_starts: starts, fully_scanned: false, scanned_up_to: 0 };
        proof {
            assert(self@.subrange(0, 0) =~= Seq::<u8>::empty());
            assert(starts_int(starts@) =~= seq![0int]);
        }
    }

    /// Insert the UTF-8 bytes of `text` at byte position `pos`, clamped to
    /// the content length.  An empty `text` changes nothing; otherwise the
    /// line cache is reset and the buffer is marked modified.
    pub fn insert(&mut self, pos: usize, text: &str)
        requires
            old(self).wf(),
        ensures
            final(self).wf(),
            text.spec_bytes().len() == 0 ==> *final(self) == *old(self),
            text.spec_bytes().len() > 0 ==> {
                let p = vstd::math::min(pos as int, old(self)@.len() as int);
                &&& final(self)@ == old(self)@.subrange(0, p) + text.spec_bytes()
                    + old(self)@.subrange(p, old(self)@.len() as int)
                &&& final(self).modified_spec()
                &&& final(self).scanned_to() == 0
                &&& final(self).path_spec() == old(self).path_spec()
            },
    {
        if text.is_empty() {
            proof {
                assert(text.spec_bytes() =~= Seq::<u8>::empty());
            }
            return ;
        }
        let bytes = text.as_bytes();
        if bytes.len() == 0 {
            return ;
        }
        let len = self.content.len();
        let p = if pos < len {
            pos
        } else {
            len
        };
        self.content = self.content.insert(p, bytes);
        self.invalidate_cache();
        self.modified = true;
    }

    /// Delete the byte range `[range.start, range.end)`, both ends clamped
    /// to the content length.  An empty or inverted range changes nothing;
    /// otherwise the line cache is reset and the buffer is marked modified.
    pub fn delete(&mut self, range: core::ops::Range<usize>)
        requires
            old(self).wf(),
        ensures
            final(self).wf(),
            ({
                let s = vstd::math::min(range.start as int, old(self)@.len() as int);
                let e = vstd::math::min(range.end as int, old(self)@.len() as int);
                if s >= e {
                    *final(self) == *old(self)
                } else {
                    &&& final(self)@ == old(self)@.subrange(0, s) + old(self)@.subrange(
                        e,
                        old(self)@.len() as int,
                    )
                    &&& final(self).modified_spec()
                    &&& final(self).scanned_to() == 0
                    &&& final(self).path_spec() == old(self).path_spec()
                }
            }),
    {
        let len = self.content.len();
        let s = if range.start < len {
            range.start
        } else {
            len
        };
        let e = if range.end < len {
            range.end
        } else {
            len
        };
        if s >= e {
            return ;
        }
        self.content = self.content.remove(s, e);
        self.invalidate_cache();
        self.modified = true;
    }

    /// The bytes of the byte range `[range.start, range.end)`, clamped to
    /// the content; an empty result when the range starts at or past the
    /// end, or is inverted.
    pub fn slice_bytes(&self, range: core::ops::Range<usize>) -> (r: Vec<u8>)
        ensures
            r@ == slice_bytes_spec(self@, range.start as int, range.end as int),
    {
        let len = self.content.len();
        if range.start >= len {
            let r: Vec<u8> = Vec::new();
            return r;
        }
        let e = if range.end < len {
            range.end
        } else {
            len
        };
        if e <= range.start {
            let r: Vec<u8> = Vec::new();
            return r;
        }
        self.content.bytes_range(range.start, e)
    }

    /// The byte range `[range.start, range.end)` decoded as text, with
    /// invalid UTF-8 replaced.
    pub fn slice(&self, range: core::ops::Range<usize>) -> (r: String)
        ensures
            r@ == crate::strutil::lossy_decode(
                slice_bytes_spec(self@, range.start as int, range.end as int),
            ),
    {
        let bytes = self.slice_bytes(range);
        crate::strutil::bytes_to_string_lossy(&bytes)
    }

    /// The whole content decoded as text, with invalid UTF-8 replaced;
    /// valid UTF-8 content is returned byte-for-byte.
    pub fn to_string(&self) -> (r: String)
        ensures
            r@ == crate::strutil::lossy_decode(self@),
            vstd::utf8::valid_utf8(self@) ==> r@ == vstd::utf8::decode_utf8(self@),
    {
        let bytes = self.content.collect();
        crate::strutil::bytes_to_string_lossy(&bytes)
    }

    /// The nearest UTF-8 character boundary strictly before `pos` (0 stays
    /// 0): skips backward over up to three continuation bytes.
    pub fn prev_char_boundary(&self, pos: usize) -> (r: usize)
        ensures
            r == prev_char_boundary_spec(self@, pos as int),
    {
        if pos == 0 {
            return 0;
        }
        let base = if pos > 4 {
            pos - 4
        } else {
            0
        };
        let bytes = self.slice_bytes(base..pos);
        let mut i: usize = bytes.len();
        proof {
            assert(bytes@.subrange(0, i as int) =~= bytes@);
        }
        while i > 0
            invariant
                pos >= 1,
                base == if pos > 4 {
                    (pos - 4) as int
                } else {
                    0int
                },
                bytes@ == slice_bytes_spec(self@, base as int, pos as int),
                base + bytes@.len() <= pos,
                i <= bytes@.len(),
                last_non_cont(bytes@) == last_non_cont(bytes@.subrange(0, i as int)),
            decreases i,
        {
            proof {
                assert(bytes@.subrange(0, i as int).drop_last() =~= bytes@.subrange(
                    0,
                    i - 1 as int,
                ));
            }
            if (bytes[i - 1] & 0xC0) != 0x80 {
                proof {
                    assert(last_non_cont(bytes@.subrange(0, i as int)) == i - 1);
                }
                let cand = base + (i - 1);
                return if cand < pos - 1 {
                    cand
                } else {
                    pos - 1
                };
            }
            i = i - 1;
        }
        proof {
            assert(last_non_cont(bytes@.subrange(0, 0)) == -1);
        }
        pos - 1
    }

    /// The nearest UTF-8 character boundary strictly after `pos` (clamped
    /// to the content length): skips forward over up to three continuation
    /// bytes.
    pub fn next_char_boundary(&self, pos: usize) -> (r: usize)
        ensures
            r == next_char_boundary_spec(self@, pos as int),
    {
        let len = self.content.len();
        if pos >= len {
            return len;
        }
        let end = if len - pos < 4 {
            len
        } else {
            pos + 4
        };
        let bytes = self.slice_bytes(pos..end);
        let mut i: usize = 1;
        while i < bytes.len()
            invariant
                1 <= i,
                pos < self@.len(),
                bytes@ == slice_bytes_spec(
                    self@,
                    pos as int,
                    vstd::math::min(pos + 4, self@.len() as int),
                ),
                first_non_cont_from(bytes@, 1) == first_non_cont_from(bytes@, i as int),
                pos + bytes@.len() <= self@.len(),
                self@.len() <= usize::MAX,
            decreases bytes@.len() - i,
        {
            if (bytes[i] & 0xC0) != 0x80 {
                proof {
                    assert(first_non_cont_from(bytes@, i as int) == i);
                }
                return pos + i;
            }
            proof {
                assert(first_non_cont_from(bytes@, i as int) == first_non_cont_from(
                    bytes@,
                    i + 1 as int,
                ));
            }
            i = i + 1;
        }
        proof {
            assert(first_non_cont_from(bytes@, i as int) == -1);
        }
        if pos + 1 < len {
            pos + 1
        } else {
            len
        }
    }

    /// The byte offset where the word before `pos` starts: steps back over
    /// white space, then over the word, in the decoded text.
    pub fn prev_word_boundary(&self, pos: usize) -> (r: usize)
        ensures
            r == prev_word_boundary_spec(crate::strutil::lossy_decode(self@), pos as int),
    {
        if pos == 0 {
            return 0;
        }
        let text = self.to_string();
        let text_bytes = text.as_str().as_bytes_vec();
        // Reading the byte length bounds the encoded size for the
        // character-position arithmetic below.
        let _byte_len = text_bytes.len();
        let chars = crate::strutil::str_chars(text.as_str());
        let ghost cs = chars@;
        let cp = char_index_of_byte_pos(&chars, pos);
        if cp == 0 {
            return 0;
        }
        let n = chars.len();
        // Skip whitespace backward.
        let mut j: usize = cp - 1;
        while j > 0 && crate::strutil::is_whitespace_char(chars[j])
            invariant
                j < n == cs.len(),
                cs == chars@,
                skip_ws_back(cs, cp - 1) == skip_ws_back(cs, j as int),
            decreases j,
        {
            proof {
                assert(skip_ws_back(cs, j as int) == skip_ws_back(cs, j - 1 as int));
            }
            j = j - 1;
        }
        proof {
            assert(skip_ws_back(cs, j as int) == j);
        }
        // Skip word characters backward.
        while j > 0 && !crate::strutil::is_whitespace_char(chars[j])
            invariant
                j < n == cs.len(),
                cs == chars@,
                skip_word_back(cs, skip_ws_back(cs, cp - 1)) == skip_word_back(cs, j as int),
            decreases j,
        {
            proof {
                assert(skip_word_back(cs, j as int) == skip_word_back(cs, j - 1 as int));
            }
            j = j - 1;
        }
        proof {
            assert(skip_word_back(cs, j as int) == j);
        }
        let k = if j > 0 || (n > 0 && crate::strutil::is_whitespace_char(chars[0])) {
            j + 1
        } else {
            j
        };
        utf8_prefix_bytes(&chars, k)
    }

    /// The byte offset where the word after `pos` ends: steps forward over
    /// the word, then over white space, in the decoded text.
    pub fn next_word_boundary(&self, pos: usize) -> (r: usize)
        ensures
            r == next_word_boundary_spec(crate::strutil::lossy_decode(self@), pos as int),
    {
        let text = self.to_string();
        let text_bytes = text.as_str().as_bytes_vec();
        let total = text_bytes.len();
        let chars = crate::strutil::str_chars(text.as_str());
        let ghost cs = chars@;
        let cp = char_index_of_byte_pos(&chars, pos);
        let n = chars.len();
        if cp >= n {
            proof {
                assert(cs.subrange(0, cs.len() as int) =~= cs);
            }
            return total;
        }
        // Skip word characters forward.
        let mut j: usize = cp;
        while j < n && !crate::strutil::is_whitespace_char(chars[j])
            invariant
                j <= n == cs.len(),
                cs == chars@,
                skip_word_fwd(cs, cp as int) == skip_word_fwd(cs, j as int),
            decreases n - j,
        {
            proof {
                assert(skip_word_fwd(cs, j as int) == skip_word_fwd(cs, j + 1 as int));
            }
            j = j + 1;
        }
        proof {
            assert(skip_word_fwd(cs, j as int) == j);
        }
        // Skip whitespace forward.
        while j < n && crate::strutil::is_whitespace_char(chars[j])
            invariant
                j <= n == cs.len(),
                cs == chars@,
                skip_ws_fwd(cs, skip_word_fwd(cs, cp as int)) == skip_ws_fwd(cs, j as int),
            decreases n - j,
        {
            proof {
                assert(skip_ws_fwd(cs, j as int) == skip_ws_fwd(cs, j + 1 as int));
            }
            j = j + 1;
        }
        proof {
            assert(skip_ws_fwd(cs, j as int) == j);
        }
        utf8_prefix_bytes(&chars, j)
    }

    /// The first occurrence of `pattern` at or after `start_pos`, else the
    /// first occurrence that lies entirely before `start_pos` (the search
    /// wraps around); `None` when the pattern is empty or absent.
    pub fn find_next(&self, pattern: &str, start_pos: usize) -> (r: Option<usize>)
        ensures
            pattern.spec_bytes().len() == 0 ==> r is None,
            ({
                let s = self@;
                let p = pattern.spec_bytes();
                p.len() > 0 ==> match r {
                    Some(i) => matches_at(s, p, i as int) && (if i >= start_pos {
                        forall|j: int| start_pos <= j < i ==> !matches_at(s, p, j)
                    } else {
                        &&& i + p.len() <= start_pos
                        &&& (forall|j: int| j >= start_pos ==> !matches_at(s, p, j))
                        &&& (forall|j: int|
                            0 <= j < i ==> !(matches_at(s, p, j) && j + p.len() <= start_pos))
                    }),
                    None => forall|j: int|
                        !(matches_at(s, p, j) && (j >= start_pos || j + p.len() <= start_pos)),
                }
            }),
    {
        let pat = pattern.as_bytes_vec();
        if pat.len() == 0 {
            return None;
        }
        let len = self.content.len();
        let ghost s = self@;
        let ghost p = pat@;
        // Search from start_pos to the end.
        if start_pos < len {
            let tail = self.content.bytes_range(start_pos, len);
            let found = find_pattern(&tail, &pat);
            proof {
                lemma_matches_shift(s, p, start_pos as int, s.len() as int, tail@);
            }
            if let Some(offset) = found {
                return Some(start_pos + offset);
            }
        }
        proof {
            if start_pos >= len {
                assert(forall|j: int| j >= start_pos ==> !matches_at(s, p, j));
            }
        }
        // Wrap around: search from the beginning to start_pos.
        if start_pos > 0 {
            let head_end = if start_pos < len {
                start_pos
            } else {
                len
            };
            let head = self.content.bytes_range(0, head_end);
            let found = find_pattern(&head, &pat);
            proof {
                lemma_matches_shift(s, p, 0, head_end as int, head@);
                assert forall|j: int| matches_at(s, p, j) && j + p.len() <= start_pos implies j
                    + p.len() <= head_end by {}
            }
            if let Some(offset) = found {
                return Some(offset);
            }
        }
        None
    }

    /// All the bytes of the buffer.
    pub fn content_bytes(&self) -> (r: Vec<u8>)
        ensures
            r@ == self@,
    {
        self.content.collect()
    }

    /// True when `byte_pos` is at or past the end of the content.
    pub fn is_at_eof(&self, byte_pos: usize) -> (r: bool)
        ensures
            r == (byte_pos >= self@.len()),
    {
        byte_pos >= self.content.len()
    }

    /// The buffer's file path, if any.
    pub fn file_path(&self) -> (r: Option<&String>)
        ensures
            match r {
                Some(p) => self.path_spec() == Some(*p),
                None => self.path_spec() is None,
            },
    {
        self.file_path.as_ref()
    }

    /// Set the buffer's file path.
    pub fn set_file_path(&mut self, path: String)
        ensures
            final(self).path_spec() == Some(path),
            final(self)@ == old(self)@,
            final(self).wf() == old(self).wf(),
            final(self).modified_spec() == old(self).modified_spec(),
            final(self).scanned_to() == old(self).scanned_to(),
            final(self).is_fully_scanned() == old(self).is_fully_scanned(),
            final(self).cached_line_starts() == old(self).cached_line_starts(),
    {
        self.file_path = Some(path);
    }

    /// True when the buffer has been edited since it was last saved.
    pub fn is_modified(&self) -> (r: bool)
        ensures
            r == self.modified_spec(),
    {
        self.modified
    }

    /// Extend the line cache so that it covers at least the first
    /// `min_byte_pos` bytes (clamped to the content length), scanning only
    /// the part that has not been scanned yet.
    pub fn ensure_line_cache_to(&mut self, min_byte_pos: usize)
        requires
            old(self).wf(),
        ensures
            final(self).wf(),
            final(self)@ == old(self)@,
            final(self).modified_spec() == old(self).modified_spec(),
            final(self).path_spec() == old(self).path_spec(),
            final(self).scanned_to() == vstd::math::max(
                old(self).scanned_to(),
                vstd::math::min(min_byte_pos as int, old(self)@.len() as int),
            ),
    {
        proof {
            self.lemma_wf_cache();
        }
        if self.line_cache.fully_scanned {
            return ;
        }
        let len = self.content.len();
        let scan_to = if min_byte_pos < len {
            min_byte_pos
        } else {
            len
        };
        if scan_to <= self.line_cache.scanned_up_to {
            return ;
        }
        let ghost c = self@;
        let ghost m = self.modified;
        let ghost fp = self.file_path;
        let mut i: usize = self.line_cache.scanned_up_to;
        while i < scan_to
            invariant
                self@ == c,
                self.modified == m,
                self.file_path == fp,
                i <= scan_to <= c.len(),
                starts_int(self.line_cache.line_starts@) == line_starts_spec(
                    c.subrange(0, i as int),
                ),
            decreases scan_to - i,
        {
            if self.content.get(i) == NL {
                self.line_cache.line_starts.push(i + 1);
            }
            proof {
                lemma_line_starts_step(c, i as int);
                if c[i as int] == NL {
                    assert(starts_int(self.line_cache.line_starts@) =~= line_starts_spec(
                        c.subrange(0, i as int),
                    ).push(i + 1));
                } else {
                    assert(starts_int(self.line_cache.line_starts@) =~= line_starts_spec(
                        c.subrange(0, i as int),
                    ));
                }
            }
            i = i + 1;
        }
        self.line_cache.scanned_up_to = scan_to;
        self.line_cache.fully_scanned = scan_to >= len;
    }

    /// Scan the whole content into the line cache.
    pub fn ensure_line_cache(&mut self)
        requires
            old(self).wf(),
        ensures
            final(self).wf(),
            final(self)@ == old(self)@,
            final(self).modified_spec() == old(self).modified_spec(),
            final(self).path_spec() == old(self).path_spec(),
            final(self).scanned_to() == old(self)@.len(),
    {
        let len = self.content.len();
        self.ensure_line_cache_to(len);
        proof {
            self.lemma_wf_cache();
        }
    }

    /// The byte offset at which line `line` starts, or the content length
    /// when the content has no such line.
    pub fn line_to_byte(&mut self, line: usize) -> (r: usize)
        requires
            old(self).wf(),
        ensures
            final(self).wf(),
            final(self)@ == old(self)@,
            final(self).modified_spec() == old(self).modified_spec(),
            final(self).path_spec() == old(self).path_spec(),
            final(self).scanned_to() >= old(self).scanned_to(),
            r == line_to_byte_spec(old(self)@, line as int),
    {
        proof {
            self.lemma_wf_cache();
            lemma_line_starts_prefix(self@, self.scanned_to());
        }
        // Quick path: the line is already cached.
        if line < self.line_cache.line_starts.len() {
            return self.line_cache.line_starts[line];
        }
        let ghost c = self@;
        let len = self.content.len();
        // Scan forward in bounded chunks until the line appears or the end
        // of the content is reached.
        while self.line_cache.line_starts.len() <= line && self.line_cache.scanned_up_to < len
            invariant
                self.wf(),
                self@ == c,
                len == c.len(),
                self.modified_spec() == old(self).modified_spec(),
                self.path_spec() == old(self).path_spec(),
                self.scanned_to() >= old(self).scanned_to(),
            decreases c.len() - self.scanned_to(),
        {
            let scanned = self.line_cache.scanned_up_to;
            let target = if len - scanned < 65536 {
                len
            } else {
                scanned + 65536
            };
            self.ensure_line_cache_to(target);
            proof {
                self.lemma_wf_cache();
            }
        }
        proof {
            self.lemma_wf_cache();
            lemma_line_starts_prefix(c, self.scanned_to());
            lemma_line_starts_props(c);
            lemma_line_starts_props(c.subrange(0, self.scanned_to()));
        }
        if line < self.line_cache.line_starts.len() {
            self.line_cache.line_starts[line]
        } else {
            proof {
                assert(self.scanned_to() == c.len());
                assert(c.subrange(0, c.len() as int) =~= c);
            }
            len
        }
    }

    /// The number of lines of the content; scans the whole content.
    pub fn line_count(&mut self) -> (r: usize)
        requires
            old(self).wf(),
        ensures
            final(self).wf(),
            final(self)@ == old(self)@,
            final(self).modified_spec() == old(self).modified_spec(),
            final(self).path_spec() == old(self).path_spec(),
            r == num_lines(old(self)@),
    {
        self.ensure_line_cache();
        proof {
            self.lemma_wf_cache();
            assert(self@.subrange(0, self@.len() as int) =~= self@);
            lemma_line_starts_len(self@);
        }
        self.line_cache.line_starts.len()
    }

    /// The line containing byte offset `byte` (clamped to the content
    /// length); scans the line cache up to that offset.
    pub fn byte_to_line(&mut self, byte: usize) -> (r: usize)
        requires
            old(self).wf(),
        ensures
            final(self).wf(),
            final(self)@ == old(self)@,
            final(self).modified_spec() == old(self).modified_spec(),
            final(self).path_spec() == old(self).path_spec(),
            r == line_of_byte(old(self)@, vstd::math::min(byte as int, old(self)@.len() as int)),
    {
        let len = self.content.len();
        let b = if byte < len {
            byte
        } else {
            len
        };
        self.ensure_line_cache_to(b);
        proof {
            self.lemma_wf_cache();
            lemma_line_starts_props(self@.subrange(0, self.scanned_to()));
            lemma_line_of_byte_prefix(self@, self.scanned_to(), b as int);
            let sv = self.line_cache.line_starts@;
            assert(forall|j: int| 0 <= j < sv.len() ==> #[trigger] starts_int(sv)[j] == sv[j]);
            assert forall|j: int, k: int| 0 <= j < k < sv.len() implies sv[j] < sv[k] by {
                assert(starts_int(sv)[j] < starts_int(sv)[k]);
            }
            assert(sv[0] == starts_int(sv)[0]);
        }
        cache_lookup_line(&self.line_cache.line_starts, b)
    }

    /// The byte offset the line cache has scanned up to.
    pub fn line_cache_scanned_up_to(&self) -> (r: usize)
        ensures
            r == self.scanned_to(),
    {
        self.line_cache.scanned_up_to
    }

    /// How many line starts the cache holds.
    pub fn line_cache_count(&self) -> (r: usize)
        ensures
            r == self.cached_line_starts().len(),
    {
        self.line_cache.line_starts.len()
    }

    /// The cached line count when the whole content has been scanned,
    /// `None` before that.
    pub fn approximate_line_count(&self) -> (r: Option<usize>)
        requires
            self.wf(),
        ensures
            self.is_fully_scanned() ==> r == Some((num_lines(self@)) as usize),
            !self.is_fully_scanned() ==> r is None,
    {
        if self.line_cache.fully_scanned {
            proof {
                self.lemma_wf_cache();
                assert(self@.subrange(0, self@.len() as int) =~= self@);
                lemma_line_starts_len(self@);
                lemma_count_nl_le_len(self@);
            }
            Some(self.line_cache.line_starts.len())
        } else {
            None
        }
    }

    /// Opportunistically extend the line cache when the caller already
    /// knows a line boundary at `line_start_byte`: scans forward at most
    /// 1000 bytes, never across an unscanned gap of more than 10000 bytes,
    /// and never past the end of the line that starts there.
    pub fn register_line_in_cache(&mut self, line_start_byte: usize)
        requires
            old(self).wf(),
        ensures
            final(self).wf(),
            final(self)@ == old(self)@,
            final(self).modified_spec() == old(self).modified_spec(),
            final(self).path_spec() == old(self).path_spec(),
            ({
                let s = old(self)@;
                let sc = old(self).scanned_to();
                let lsb = line_start_byte as int;
                if old(self).is_fully_scanned() || lsb <= sc || lsb - sc > 10000 {
                    *final(self) == *old(self)
                } else {
                    let t0 = vstd::math::min(
                        find_line_end_spec(s, lsb),
                        vstd::math::max(s.len() as int - 1, 0),
                    );
                    if t0 <= sc {
                        *final(self) == *old(self)
                    } else {
                        final(self).scanned_to() == vstd::math::min(t0, sc + 1000)
                    }
                }
            }),
    {
        proof {
            self.lemma_wf_cache();
        }
        if self.line_cache.fully_scanned {
            return ;
        }
        let scanned = self.line_cache.scanned_up_to;
        if line_start_byte <= scanned {
            return ;
        }
        if line_start_byte - scanned > 10000 {
            return ;
        }
        let len = self.content.len();
        let line_end = self.find_line_end_at_byte(line_start_byte);
        let mut target = if len == 0 {
            0
        } else {
            len - 1
        };
        if line_end < target {
            target = line_end;
        }
        if target <= scanned {
            return ;
        }
        if target - scanned > 1000 {
            target = scanned + 1000;
        }
        self.ensure_line_cache_to(target);
    }

    /// The line containing byte offset `byte` (clamped to the content
    /// length) without scanning: exact when the cache already covers the
    /// offset, otherwise an estimate extrapolated from the average line
    /// length of the scanned prefix (80 bytes when nothing is scanned yet).
    pub fn byte_to_line_lazy(&self, byte: usize) -> (r: LineNumber)
        requires
            self.wf(),
        ensures
            ({
                let b = vstd::math::min(byte as int, self@.len() as int);
                if self.is_fully_scanned() || b <= self.scanned_to() {
                    r == LineNumber::Absolute(line_of_byte(self@, b) as usize)
                } else {
                    let last_known = self.cached_line_starts().len() - 1;
                    let avg = if last_known > 0 {
                        self.scanned_to() / last_known as int
                    } else {
                        80
                    };
                    let est = if avg > 0 {
                        (b - self.scanned_to()) / avg
                    } else {
                        0
                    };
                    r == LineNumber::Relative {
                        line: (last_known + est) as usize,
                        from_cached_line: last_known as usize,
                    }
                }
            }),
    {
        let len = self.content.len();
        let b = if byte < len {
            byte
        } else {
            len
        };
        self.lazy_line_number(b)
    }

    /// The line number to display for byte offset `byte_pos`: exact when
    /// cached, otherwise estimated, as in [`Buffer::byte_to_line_lazy`],
    /// but without clamping the offset to the content length.
    pub fn display_line_number(&self, byte_pos: usize) -> (r: LineNumber)
        requires
            self.wf(),
        ensures
            ({
                if self.is_fully_scanned() || byte_pos <= self.scanned_to() {
                    r == LineNumber::Absolute(line_of_byte(self@, byte_pos as int) as usize)
                } else {
                    let last_known = self.cached_line_starts().len() - 1;
                    let avg = if last_known > 0 {
                        self.scanned_to() / last_known as int
                    } else {
                        80
                    };
                    let est = if avg > 0 {
                        (byte_pos - self.scanned_to()) / avg
                    } else {
                        0
                    };
                    r == LineNumber::Relative {
                        line: (last_known + est) as usize,
                        from_cached_line: last_known as usize,
                    }
                }
            }),
    {
        self.lazy_line_number(byte_pos)
    }

    /// Exact-or-estimated line number for a byte offset, reading only the
    /// cache.
    fn lazy_line_number(&self, b: usize) -> (r: LineNumber)
        requires
            self.wf(),
        ensures
            ({
                if self.is_fully_scanned() || b <= self.scanned_to() {
                    r == LineNumber::Absolute(line_of_byte(self@, b as int) as usize)
                } else {
                    let last_known = self.cached_line_starts().len() - 1;
                    let avg = if last_known > 0 {
                        self.scanned_to() / last_known as int
                    } else {
                        80
                    };
                    let est = if avg > 0 {
                        (b - self.scanned_to()) / avg
                    } else {
                        0
                    };
                    r == LineNumber::Relative {
                        line: (last_known + est) as usize,
                        from_cached_line: last_known as usize,
                    }
                }
            }),
    {
        proof {
            self.lemma_wf_cache();
            lemma_line_starts_props(self@.subrange(0, self.scanned_to()));
            let sv = self.line_cache.line_starts@;
            assert(forall|j: int| 0 <= j < sv.len() ==> #[trigger] starts_int(sv)[j] == sv[j]);
            assert forall|j: int, k: int| 0 <= j < k < sv.len() implies sv[j] < sv[k] by {
                assert(starts_int(sv)[j] < starts_int(sv)[k]);
            }
            assert(sv[0] == starts_int(sv)[0]);
        }
        if self.line_cache.fully_scanned || b <= self.line_cache.scanned_up_to {
            proof {
                if self.is_fully_scanned() {
                    assert(self@.subrange(0, self.scanned_to()) =~= self@);
                } else {
                    lemma_line_of_byte_prefix(self@, self.scanned_to(), b as int);
                }
            }
            LineNumber::Absolute(cache_lookup_line(&self.line_cache.line_starts, b))
        } else {
            proof {
                lemma_line_starts_len(self@.subrange(0, self.scanned_to()));
                lemma_count_nl_le_len(self@.subrange(0, self.scanned_to()));
            }
            let last_known = self.line_cache.line_starts.len() - 1;
            let last_known_byte = self.line_cache.scanned_up_to;
            let avg_line_length = if last_known > 0 {
                last_known_byte / last_known
            } else {
                80
            };
            let remaining_bytes = b - last_known_byte;
            let estimated = if avg_line_length > 0 {
                remaining_bytes / avg_line_length
            } else {
                0
            };
            LineNumber::Relative { line: last_known + estimated, from_cached_line: last_known }
        }
    }

    /// The start of the line containing `byte_pos`, searching backward at
    /// most a fixed window (100000 bytes): one past the nearest newline, or
    /// the window floor for a pathologically long line.
    pub fn find_line_start_at_byte(&self, byte_pos: usize) -> (r: usize)
        ensures
            r == find_line_start_spec(self@, byte_pos as int),
    {
        let len = self.content.len();
        let b = if byte_pos < len {
            byte_pos
        } else {
            len
        };
        let lo = if b > 100000 {
            b - 100000
        } else {
            0
        };
        let mut i: usize = b;
        while i > lo
            invariant
                lo <= i <= b <= self@.len(),
                find_line_start_spec(self@, byte_pos as int) == line_start_search(
                    self@,
                    i as int,
                    lo as int,
                ),
            decreases i,
        {
            if self.content.get(i - 1) == NL {
                proof {
                    assert(line_start_search(self@, i as int, lo as int) == i);
                }
                return i;
            }
            proof {
                assert(line_start_search(self@, i as int, lo as int) == line_start_search(
                    self@,
                    i - 1 as int,
                    lo as int,
                ));
            }
            i = i - 1;
        }
        proof {
            assert(line_start_search(self@, i as int, lo as int) == lo);
        }
        lo
    }

    /// The end of the line containing `byte_pos`: the offset of the next
    /// newline at or after it, or the content length on the last line.
    pub fn find_line_end_at_byte(&self, byte_pos: usize) -> (r: usize)
        ensures
            r == find_line_end_spec(self@, byte_pos as int),
    {
        let len = self.content.len();
        let b = if byte_pos < len {
            byte_pos
        } else {
            len
        };
        let mut i: usize = b;
        while i < len
            invariant
                b <= i <= len == self@.len(),
                find_line_end_spec(self@, byte_pos as int) == line_end_search(self@, i as int),
            decreases len - i,
        {
            if self.content.get(i) == NL {
                proof {
                    assert(line_end_search(self@, i as int) == i);
                }
                return i;
            }
            proof {
                assert(line_end_search(self@, i as int) == line_end_search(self@, i + 1 as int));
            }
            i = i + 1;
        }
        proof {
            assert(line_end_search(self@, i as int) == len);
        }
        len
    }

    /// The start of the line before the one containing `byte_pos`, or
    /// `None` on the first line.
    pub fn find_prev_line_start_from_byte(&self, byte_pos: usize) -> (r: Option<usize>)
        ensures
            ({
                let ls = find_line_start_spec(self@, byte_pos as int);
                if ls == 0 {
                    r is None
                } else {
                    r == Some(find_line_start_spec(self@, ls - 1) as usize)
                }
            }),
    {
        proof {
            let b = vstd::math::min(byte_pos as int, self@.len() as int);
            lemma_line_start_search_bounds(self@, b, vstd::math::max(b - 100000, 0));
        }
        let line_start = self.find_line_start_at_byte(byte_pos);
        if line_start == 0 {
            return None;
        }
        Some(self.find_line_start_at_byte(line_start - 1))
    }

    /// The start of the line after the one containing `byte_pos`, or `None`
    /// on the last line.
    pub fn find_next_line_start_from_byte(&self, byte_pos: usize) -> (r: Option<usize>)
        ensures
            ({
                let le = find_line_end_spec(self@, byte_pos as int);
                if le >= self@.len() {
                    r is None
                } else {
                    r == Some((le + 1) as usize)
                }
            }),
    {
        proof {
            let b = vstd::math::min(byte_pos as int, self@.len() as int);
            lemma_line_end_search_bounds(self@, b);
        }
        let line_end = self.find_line_end_at_byte(byte_pos);
        if line_end >= self.content.len() {
            return None;
        }
        Some(line_end + 1)
    }

    /// True when line `line` is the last line of the content.
    pub fn is_last_line(&mut self, line: usize) -> (r: bool)
        requires
            old(self).wf(),
            line < usize::MAX,
        ensures
            final(self).wf(),
            final(self)@ == old(self)@,
            final(self).modified_spec() == old(self).modified_spec(),
            final(self).path_spec() == old(self).path_spec(),
            r == (line_to_byte_spec(old(self)@, line + 1) >= old(self)@.len()),
    {
        let next_line_start = self.line_to_byte(line + 1);
        next_line_start >= self.content.len()
    }

    /// The byte offset of the end of line `line`, excluding its newline;
    /// the content length on the last line.
    pub fn line_end_byte(&mut self, line: usize) -> (r: usize)
        requires
            old(self).wf(),
            line < usize::MAX,
        ensures
            final(self).wf(),
            final(self)@ == old(self)@,
            final(self).modified_spec() == old(self).modified_spec(),
            final(self).path_spec() == old(self).path_spec(),
            ({
                let nxt = line_to_byte_spec(old(self)@, line + 1);
                if nxt >= old(self)@.len() {
                    r == old(self)@.len()
                } else {
                    r == nxt - 1
                }
            }),
    {
        proof {
            lemma_line_starts_props(self@);
        }
        let next_line_start = self.line_to_byte(line + 1);
        let len = self.content.len();
        if next_line_start >= len {
            len
        } else {
            next_line_start - 1
        }
    }

    /// The byte offset of the end of line `line`, including its newline;
    /// the content length on the last line.
    pub fn line_end_byte_with_newline(&mut self, line: usize) -> (r: usize)
        requires
            old(self).wf(),
            line < usize::MAX,
        ensures
            final(self).wf(),
            final(self)@ == old(self)@,
            final(self).modified_spec() == old(self).modified_spec(),
            final(self).path_spec() == old(self).path_spec(),
            ({
                let nxt = line_to_byte_spec(old(self)@, line + 1);
                if nxt >= old(self)@.len() {
                    r == old(self)@.len()
                } else {
                    r == nxt
                }
            }),
    {
        let next_line_start = self.line_to_byte(line + 1);
        let len = self.content.len();
        if next_line_start >= len {
            len
        } else {
            next_line_start
        }
    }

    /// The content of the line containing `byte_pos`, found by scanning
    /// backward to the previous newline (unbounded) and forward to the
    /// next; empty for an offset at or past the end.
    pub fn line_content_at_byte(&self, byte_pos: usize) -> (r: String)
        ensures
            byte_pos >= self@.len() ==> r@ == Seq::<char>::empty(),
            byte_pos < self@.len() ==> r@ == crate::strutil::lossy_decode(
                self@.subrange(
                    line_start_search(self@, byte_pos as int, 0),
                    line_end_search(self@, byte_pos as int),
                ),
            ),
    {
        let len = self.content.len();
        if byte_pos >= len {
            return String::new();
        }
        let mut i: usize = byte_pos;
        while i > 0 && self.content.get(i - 1) != NL
            invariant
                i <= byte_pos < self@.len(),
                line_start_search(self@, byte_pos as int, 0) == line_start_search(
                    self@,
                    i as int,
                    0,
                ),
            decreases i,
        {
            proof {
                assert(line_start_search(self@, i as int, 0) == line_start_search(
                    self@,
                    i - 1 as int,
                    0,
                ));
            }
            i = i - 1;
        }
        proof {
            assert(line_start_search(self@, i as int, 0) == i);
            lemma_line_end_search_bounds(self@, byte_pos as int);
        }
        let start = i;
        let end = self.find_line_end_at_byte(byte_pos);
        let bytes = self.content.bytes_range(start, end);
        crate::strutil::bytes_to_string_lossy(&bytes)
    }

    /// The contents of up to `count` lines starting at line `start_line`,
    /// without their newlines; scans the whole content.
    pub fn lines_in_range(&mut self, start_line: usize, count: usize) -> (r: Vec<String>)
        requires
            old(self).wf(),
        ensures
            final(self).wf(),
            final(self)@ == old(self)@,
            final(self).modified_spec() == old(self).modified_spec(),
            final(self).path_spec() == old(self).path_spec(),
            r@.len() == vstd::math::min(
                count as int,
                vstd::math::max(num_lines(old(self)@) - start_line, 0),
            ),
            forall|i: int|
                0 <= i < r@.len() ==> #[trigger] r@[i]@ == crate::strutil::lossy_decode(
                    line_text_range(old(self)@, start_line + i),
                ),
    {
        let total = self.line_count();
        let ghost c = self@;
        let remaining = if total > start_line {
            total - start_line
        } else {
            0
        };
        let m = if count < remaining {
            count
        } else {
            remaining
        };
        let mut out: Vec<String> = Vec::new();
        let mut i: usize = 0;
        while i < m
            invariant
                self.wf(),
                self@ == c,
                self.modified_spec() == old(self).modified_spec(),
                self.path_spec() == old(self).path_spec(),
                i <= m,
                m == 0 || start_line + m <= num_lines(c),
                m == 0 || start_line + m <= usize::MAX,
                out@.len() == i,
                forall|j: int|
                    0 <= j < i ==> #[trigger] out@[j]@ == crate::strutil::lossy_decode(
                        line_text_range(c, start_line + j),
                    ),
            decreases m - i,
        {
            let line = start_line + i;
            proof {
                lemma_line_starts_props(c);
                lemma_line_starts_len(c);
            }
            let a = self.line_to_byte(line);
            let b = self.line_to_byte(line + 1);
            let len = self.content.len();
            let e = if b >= len {
                len
            } else {
                b - 1
            };
            let bytes = self.slice_bytes(a..e);
            let text = crate::strutil::bytes_to_string_lossy(&bytes);
            proof {
                let ltr = line_text_range(c, line as int);
                assert(slice_bytes_spec(c, a as int, e as int) =~= ltr);
            }
            out.push(text);
            i = i + 1;
        }
        out
    }

    /// How many newline bytes lie in `[start, end)`, both ends clamped to
    /// the content length.
    pub fn count_newlines_in_range(&self, start: usize, end: usize) -> (r: usize)
        ensures
            r == count_nl(slice_bytes_spec(self@, start as int, end as int)),
    {
        let len = self.content.len();
        let a = if start < len {
            start
        } else {
            len
        };
        let e = if end < len {
            end
        } else {
            len
        };
        if a >= e {
            proof {
                assert(count_nl(slice_bytes_spec(self@, start as int, end as int)) == 0);
            }
            return 0;
        }
        let mut count: usize = 0;
        let mut i: usize = a;
        proof {
            assert(self@.subrange(a as int, a as int) =~= Seq::<u8>::empty());
        }
        while i < e
            invariant
                a <= i <= e <= self@.len(),
                count <= i - a,
                count == count_nl(self@.subrange(a as int, i as int)),
            decreases e - i,
        {
            let ghost pre = self@.subrange(a as int, i as int);
            if self.content.get(i) == NL {
                count = count + 1;
            }
            proof {
                let nxt = self@.subrange(a as int, i + 1 as int);
                assert(nxt.drop_last() =~= pre);
                assert(nxt.last() == self@[i as int]);
            }
            i = i + 1;
        }
        proof {
            assert(slice_bytes_spec(self@, start as int, end as int) =~= self@.subrange(
                a as int,
                e as int,
            ));
        }
        count
    }

    /// An iterator over the buffer's lines starting at `start_byte`.
    pub fn line_iterator(&self, start_byte: usize) -> (r: LineIterator<'_>)
        ensures
            r.contents() == self@,
            r.pos_spec() == vstd::math::min(start_byte as int, self@.len() as int),
    {
        LineIterator::new(self, start_byte)
    }

    /// Mark the buffer as unmodified.
    pub fn clear_modified(&mut self)
        ensures
            !final(self).modified_spec(),
            final(self)@ == old(self)@,
            final(self).wf() == old(self).wf(),
            final(self).path_spec() == old(self).path_spec(),
            final(self).scanned_to() == old(self).scanned_to(),
            final(self).is_fully_scanned() == old(self).is_fully_scanned(),
            final(self).cached_line_starts() == old(self).cached_line_starts(),
    {
        self.modified = false;
    }
}

/// A bidirectional iterator over the lines of a buffer, addressed by byte
/// position; it never forces a line-cache scan.
pub struct LineIterator<'a> {
    buffer: &'a Buffer,
    current_byte: usize,
}

impl<'a> LineIterator<'a> {
    /// The bytes of the underlying buffer.
    pub closed spec fn contents(&self) -> Seq<u8> {
        self.buffer@
    }

    /// The iterator's current byte position.
    pub closed spec fn pos_spec(&self) -> int {
        self.current_byte as int
    }

    /// An iterator at `start_byte`, clamped to the buffer length.
    pub fn new(buffer: &'a Buffer, start_byte: usize) -> (r: Self)
        ensures
            r.contents() == buffer@,
            r.pos_spec() == vstd::math::min(start_byte as int, buffer@.len() as int),
    {
        let len = buffer.len();
        let current_byte = if start_byte < len {
            start_byte
        } else {
            len
        };
        LineIterator { buffer, current_byte }
    }

    /// The line starting at the current position, and its start offset;
    /// advances past that line.  `None` at the end of the buffer.
    pub fn next(&mut self) -> (r: Option<(usize, String)>)
        ensures
            final(self).contents() == old(self).contents(),
            ({
                let s = old(self).contents();
                let cur = old(self).pos_spec();
                if cur >= s.len() {
                    r is None && final(self).pos_spec() == cur
                } else {
                    let e = line_end_search(s, cur);
                    &&& match r {
                        Some(pc) => pc.0 == cur && pc.1@ == crate::strutil::lossy_decode(
                            s.subrange(cur, e),
                        ),
                        None => false,
                    }
                    &&& final(self).pos_spec() == if e < s.len() {
                        e + 1
                    } else {
                        s.len() as int
                    }
                }
            }),
    {
        let len = self.buffer.len();
        if self.current_byte >= len {
            return None;
        }
        let line_start = self.current_byte;
        proof {
            lemma_line_end_search_bounds(self.buffer@, line_start as int);
        }
        let line_end = self.buffer.find_line_end_at_byte(line_start);
        let bytes = self.buffer.content.bytes_range(line_start, line_end);
        let content = crate::strutil::bytes_to_string_lossy(&bytes);
        self.current_byte = if line_end < len {
            line_end + 1
        } else {
            len
        };
        Some((line_start, content))
    }

    /// The line before the one containing the current position, and its
    /// start offset; moves to its start.  `None` on the first line.
    pub fn prev(&mut self) -> (r: Option<(usize, String)>)
        ensures
            final(self).contents() == old(self).contents(),
            ({
                let s = old(self).contents();
                let cur = old(self).pos_spec();
                if cur == 0 {
                    r is None && final(self).pos_spec() == cur
                } else {
                    let ls0 = find_line_start_spec(s, cur);
                    if ls0 == 0 {
                        r is None && final(self).pos_spec() == cur
                    } else {
                        let ps = find_line_start_spec(s, ls0 - 1);
                        let pe = line_end_search(s, ps);
                        &&& match r {
                            Some(pc) => pc.0 == ps && pc.1@ == crate::strutil::lossy_decode(
                                s.subrange(ps, pe),
                            ),
                            None => false,
                        }
                        &&& final(self).pos_spec() == ps
                    }
                }
            }),
    {
        if self.current_byte == 0 {
            return None;
        }
        proof {
            let s = self.buffer@;
            let b = vstd::math::min(self.current_byte as int, s.len() as int);
            lemma_line_start_search_bounds(s, b, vstd::math::max(b - 100000, 0));
        }
        match self.buffer.find_prev_line_start_from_byte(self.current_byte) {
            None => None,
            Some(prev_line_start) => {
                proof {
                    let s = self.buffer@;
                    let cur = self.current_byte as int;
                    let ls0 = find_line_start_spec(s, cur);
                    let b1 = vstd::math::min(ls0 - 1, s.len() as int);
                    lemma_line_start_search_bounds(s, b1, vstd::math::max(b1 - 100000, 0));
                    lemma_line_end_search_bounds(s, prev_line_start as int);
                }
                let prev_line_end = self.buffer.find_line_end_at_byte(prev_line_start);
                let bytes = self.buffer.content.bytes_range(prev_line_start, prev_line_end);
                let content = crate::strutil::bytes_to_string_lossy(&bytes);
                self.current_byte = prev_line_start;
                Some((prev_line_start, content))
            },
        }
    }

    /// The iterator's current byte position.
    pub fn current_position(&self) -> (r: usize)
        ensures
            r == self.pos_spec(),
    {
        self.current_byte
    }
}

} // verus!
