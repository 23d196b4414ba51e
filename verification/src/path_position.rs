//! A concrete candidate path (relative or absolutized) together with the
//! parsed row/column position, if any, and the range it came from in the
//! originating line, so a highlight can be mapped back to the terminal grid.

use vstd::prelude::*;

use crate::ByteRange;
use crate::row_column::RowColumn;
use crate::row_column::dec_str;

verus! {

/// A candidate path with an optional position. Unlike a bare path string it
/// models the row/column restriction directly (no column without a row, held
/// by `RowColumn` itself) and remembers its source range in the line.
#[derive(Clone, Debug, PartialEq, Eq, Hash)]
pub struct MaybePathWithPosition {
    pub path: Vec<u8>,
    pub position: Option<RowColumn>,
    pub range: ByteRange,
}

/// Mathematical shape of a `MaybePathWithPosition`.
pub ghost struct PathPositionModel {
    pub path: Seq<u8>,
    pub position: Option<RowColumn>,
    pub range: (int, int),
}

impl View for MaybePathWithPosition {
    type V = PathPositionModel;

    open spec fn view(&self) -> PathPositionModel {
        PathPositionModel { path: self.path@, position: self.position, range: self.range@ }
    }
}

/// The textual suffix that `to_string` appends for a position: nothing, or
/// `:row`, or `:row:column`.
pub open spec fn position_suffix(position: Option<RowColumn>) -> Seq<u8> {
    match position {
        None => Seq::empty(),
        Some(rc) => match rc.column {
            None => seq![58u8] + dec_str(rc.row as int),
            Some(c) => seq![58u8] + dec_str(rc.row as int) + seq![58u8] + dec_str(c as int),
        },
    }
}

impl MaybePathWithPosition {
    pub fn new(range: ByteRange, path: Vec<u8>, position: Option<RowColumn>) -> (r:
        MaybePathWithPosition)
        ensures
            r.path == path,
            r.position == position,
            r.range == range,
    {
        MaybePathWithPosition { path, position, range }
    }

    /// Replaces the path, keeping position and range.
    pub fn into_owned_with_path(self, path: Vec<u8>) -> (r: MaybePathWithPosition)
        ensures
            r.path == path,
            r.position == self.position,
            r.range == self.range,
    {
        MaybePathWithPosition { path, ..self }
    }

    /// The candidate with its path owned outright; paths here are always
    /// owned, so the value is returned unchanged.
    pub fn into_owned(self) -> (r: MaybePathWithPosition)
        ensures
            r == self,
    {
        self
    }

    /// The range to linkify: the path's own range, re-extended over the
    /// row/column suffix that was stripped from it.
    pub fn hyperlink_range(&self) -> (r: ByteRange)
        requires
            match self.position {
                Some(rc) => self.range.end + rc.suffix_length <= usize::MAX,
                None => true,
            },
        ensures
            match self.position {
                Some(rc) => r.start == self.range.start && r.end == self.range.end
                    + rc.suffix_length,
                None => r == self.range,
            },
    {
        match self.position {
            Some(position) => ByteRange {
                start: self.range.start,
                end: self.range.end + position.suffix_length,
            },
            None => self.range,
        }
    }

    /// Renders the candidate as `path`, `path:row` or `path:row:column`.
    pub fn to_string(&self) -> (r: Vec<u8>)
        ensures
            r@ == self.path@ + position_suffix(self.position),
    {
        let mut out: Vec<u8> = Vec::new();
        let mut i: usize = 0;
        let n = self.path.len();
        while i < n
            invariant
                0 <= i <= n == self.path@.len(),
                out@ == self.path@.subrange(0, i as int),
            decreases n - i,
        {
            out.push(self.path[i]);
            proof {
                assert(out@ =~= self.path@.subrange(0, i as int + 1));
            }
            i = i + 1;
        }
        proof {
            assert(out@ =~= self.path@);
        }
        match self.position {
            Some(rc) => {
                out.push(58);
                crate::row_column::push_decimal(&mut out, rc.row);
                match rc.column {
                    Some(c) => {
                        out.push(58);
                        crate::row_column::push_decimal(&mut out, c);
                        proof {
                            assert(out@ =~= self.path@ + position_suffix(self.position));
                        }
                    },
                    None => {
                        proof {
                            assert(out@ =~= self.path@ + position_suffix(self.position));
                        }
                    },
                }
            },
            None => {
                proof {
                    assert(out@ =~= self.path@ + position_suffix(self.position));
                }
            },
        }
        out
    }
}

} // verus!
