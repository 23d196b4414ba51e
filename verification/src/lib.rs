//! Terminal path-hyperlink resolution: given a line captured from a terminal
//! and the byte range of the hovered word inside it, enumerate the plausible
//! filesystem paths the user may have meant (with optional row/column
//! suffixes), rank them, and drive a cancellable first-match resolution.

use vstd::prelude::*;

pub mod words;
pub mod symbols;
pub mod row_column;
pub mod variant;
pub mod path_position;
pub mod absolutize;
pub mod tiers;
pub mod hover;
pub mod resolver;

verus! {

/// A half-open byte range `[start, end)` into a captured terminal line.
#[derive(Clone, Copy, Debug, PartialEq, Eq, Hash, Structural)]
pub struct ByteRange {
    pub start: usize,
    pub end: usize,
}

impl View for ByteRange {
    type V = (int, int);

    open spec fn view(&self) -> (int, int) {
        (self.start as int, self.end as int)
    }
}

impl ByteRange {
    /// The range lies inside a line of `len` bytes.
    pub open spec fn wf(self, len: nat) -> bool {
        self.start <= self.end <= len
    }

    /// The range is non-empty and lies inside a line of `len` bytes.
    pub open spec fn wf_nonempty(self, len: nat) -> bool {
        self.start < self.end <= len
    }

    pub fn new(start: usize, end: usize) -> (r: ByteRange)
        ensures
            r.start == start,
            r.end == end,
    {
        ByteRange { start, end }
    }

    /// Number of bytes covered by the range.
    pub fn len(&self) -> (r: usize)
        requires
            self.start <= self.end,
        ensures
            r == self.end - self.start,
    {
        self.end - self.start
    }
}

/// A UTF-8 continuation byte (second or later byte of a multi-byte scalar).
pub open spec fn is_continuation_byte(b: u8) -> bool {
    128 <= b < 192
}

/// `i` is a Unicode scalar boundary of the valid UTF-8 byte string `s`.
pub open spec fn is_utf8_boundary(s: Seq<u8>, i: int) -> bool {
    i == 0 || i == s.len() || !is_continuation_byte(s[i])
}

/// Every continuation byte follows another non-ASCII byte, and the string does
/// not start with one. This holds of every valid UTF-8 string and is all the
/// alignment reasoning below needs: a position right after an ASCII byte is
/// always a scalar boundary.
pub open spec fn continuations_follow_nonascii(s: Seq<u8>) -> bool {
    &&& forall|i: int|
        0 < i < s.len() && is_continuation_byte(#[trigger] s[i]) ==> s[i - 1] >= 128
    &&& s.len() > 0 ==> !is_continuation_byte(s[0])
}

/// A position right after an ASCII byte of `s` is a scalar boundary.
pub proof fn lemma_boundary_after_ascii(s: Seq<u8>, i: int)
    requires
        continuations_follow_nonascii(s),
        0 < i <= s.len(),
        s[i - 1] < 128,
    ensures
        is_utf8_boundary(s, i),
{
}

/// A position holding an ASCII byte of `s` is a scalar boundary.
pub proof fn lemma_boundary_at_ascii(s: Seq<u8>, i: int)
    requires
        0 <= i < s.len(),
        s[i] < 128,
    ensures
        is_utf8_boundary(s, i),
{
}

/// Copies the bytes `line[start..end]` into a fresh vector.
pub fn copy_range(line: &[u8], start: usize, end: usize) -> (r: Vec<u8>)
    requires
        start <= end <= line@.len(),
    ensures
        r@ == line@.subrange(start as int, end as int),
{
    let mut out: Vec<u8> = Vec::new();
    let mut i: usize = start;
    while i < end
        invariant
            start <= i <= end <= line@.len(),
            out@ == line@.subrange(start as int, i as int),
        decreases end - i,
    {
        out.push(line[i]);
        i = i + 1;
        proof {
            assert(out@ =~= line@.subrange(start as int, i as int));
        }
    }
    out
}

} // verus!
