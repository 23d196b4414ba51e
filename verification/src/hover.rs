//! The hovered word and its terminal-grid coordinates: reconstructing the
//! flat line around a hover, choosing the immediate best-heuristic highlight,
//! and converting byte ranges back to grid movements counted in extended
//! grapheme clusters (terminal cells correspond to grapheme clusters, not
//! bytes or scalars).

use vstd::prelude::*;

use crate::ByteRange;
use crate::copy_range;
use crate::words::preapproved_capture;
use crate::words::preapproved_path_match;
use crate::symbols::longest_surrounding;
use crate::symbols::longest_surrounding_symbols_match;

verus! {

/// A cell position on the terminal grid: a line index (negative lines are in
/// scrollback) and a column. The emulator owns all arithmetic on these.
#[derive(Clone, Copy, Debug, PartialEq, Eq, Structural)]
pub struct GridPoint {
    pub line: i32,
    pub column: usize,
}

/// An inclusive range of grid cells, as the emulator reports a word match.
#[derive(Clone, Copy, Debug, PartialEq, Eq, Structural)]
pub struct GridMatch {
    pub start: GridPoint,
    pub end: GridPoint,
}

/// An instruction to move one endpoint of a grid match by a number of cells;
/// the emulator's own boundary-aware stepping carries it out.
#[derive(Clone, Copy, Debug, PartialEq, Eq, Structural)]
pub enum GridStep {
    Stay,
    Forward(usize),
    Backward(usize),
}

/// The number of extended grapheme clusters in a byte string. The bytes are
/// decoded lossily, so this is a function of the bytes alone.
pub uninterp spec fn grapheme_count(s: Seq<u8>) -> nat;

/// Relies on unicode_segmentation's `graphemes(true)`: the number of extended
/// grapheme clusters of a string depends on its text alone, and an empty
/// string has none. Invalid byte sequences are decoded lossily first, so the
/// count is still a function of the bytes.
#[verifier::external_body]
fn count_graphemes(bytes: &[u8]) -> (r: usize)
    ensures
        r as nat == grapheme_count(bytes@),
        bytes@.len() == 0 ==> r == 0,
{
    let text = String::from_utf8_lossy(bytes);
    unicode_segmentation::UnicodeSegmentation::graphemes(text.as_ref(), true).count()
}

/// The movement that takes a grid endpoint sitting at byte `from` of the line
/// to byte `to`: forward or backward by the number of grapheme clusters
/// between the two positions.
pub open spec fn step_between(s: Seq<u8>, from: int, to: int) -> GridStep {
    if to > from {
        GridStep::Forward(grapheme_count(s.subrange(from, to)) as usize)
    } else if to < from {
        GridStep::Backward(grapheme_count(s.subrange(to, from)) as usize)
    } else {
        GridStep::Stay
    }
}

/// The opposite movement.
pub open spec fn inverse_step(st: GridStep) -> GridStep {
    match st {
        GridStep::Stay => GridStep::Stay,
        GridStep::Forward(n) => GridStep::Backward(n),
        GridStep::Backward(n) => GridStep::Forward(n),
    }
}

/// Law: byte-to-grid conversion round-trips. The movement from `x` to `y` and
/// the movement back from `y` to `x` are exact inverses, because both count
/// the grapheme clusters of the same slice `s[min..max)`.
pub proof fn lemma_grid_round_trip(s: Seq<u8>, x: int, y: int)
    ensures
        step_between(s, y, x) == inverse_step(step_between(s, x, y)),
{
}

/// The cell index reached when an endpoint at `cell` carries out a movement
/// along a straight line of cells.
pub open spec fn cell_after(cell: int, st: GridStep) -> int {
    match st {
        GridStep::Stay => cell,
        GridStep::Forward(n) => cell + n,
        GridStep::Backward(n) => cell - n,
    }
}

/// Law: carrying out the movement for `x` to `y` and then the movement for
/// `y` back to `x` returns every cell to where it started, so a target range
/// converted to grid movements is reconstructed exactly by the movements
/// computed for the way back.
pub proof fn lemma_cell_round_trip(s: Seq<u8>, x: int, y: int, cell: int)
    ensures
        cell_after(cell_after(cell, step_between(s, x, y)), step_between(s, y, x)) == cell,
{
}

/// Computes `step_between(line, from, to)` by counting graphemes.
fn grid_step(line: &[u8], from: usize, to: usize) -> (r: GridStep)
    requires
        from <= line@.len(),
        to <= line@.len(),
    ensures
        r == step_between(line@, from as int, to as int),
{
    if to > from {
        let part = copy_range(line, from, to);
        GridStep::Forward(count_graphemes(part.as_slice()))
    } else if to < from {
        let part = copy_range(line, to, from);
        GridStep::Backward(count_graphemes(part.as_slice()))
    } else {
        GridStep::Stay
    }
}

/// The immediate highlight: a byte range of the line plus the movements that
/// take the hovered word's grid endpoints to the range's endpoints.
#[derive(Clone, Copy, Debug)]
pub struct HoveredWord {
    pub range: ByteRange,
    pub start_step: GridStep,
    pub end_step: GridStep,
}

/// A word contains a colon-capture overlap with the hover when the capture's
/// start or end falls inside the hovered range.
pub open spec fn overlaps_hover(hs: int, he: int, c: (int, int)) -> bool {
    (hs <= c.0 < he) || (hs <= c.1 < he)
}

/// The hovered word "looks like a path": it has an extension, starts with a
/// dot, or contains a separator. All three come down to containing one of
/// `.`, `/` or `\` (an extension needs a dot, and a dot anywhere in the last
/// component yields one unless the component starts with the dot).
pub open spec fn looks_like_a_path(w: Seq<u8>) -> bool {
    exists|i: int| 0 <= i < w.len() && ((w[i] == 46) || (w[i] == 47) || (w[i] == 92))
}

/// The range chosen for the immediate best-heuristic highlight: the interior
/// of the longest surrounding symbols, else the hovered word itself when it
/// looks like a path, else the preapproved colon capture when it overlaps
/// the hover.
pub open spec fn best_heuristic_range(s: Seq<u8>, hs: int, he: int) -> Option<(int, int)> {
    match longest_surrounding(s, hs, he) {
        Some(sr) => Some((sr.0 + 1, sr.1 - 1)),
        None => if looks_like_a_path(s.subrange(hs, he)) {
            Some((hs, he))
        } else {
            match preapproved_capture(s) {
                Some(c) => if overlaps_hover(hs, he, c) {
                    Some(c)
                } else {
                    None
                },
                None => None,
            }
        },
    }
}

/// The hovered (or clicked) word in the terminal: the flat line it sits on,
/// its byte range within that line, and its original grid coordinates.
#[derive(Clone, Debug, PartialEq, Eq)]
pub struct HoveredMaybePath {
    pub line: Vec<u8>,
    pub hovered_word_range: ByteRange,
    pub hovered_word_match: GridMatch,
}

impl HoveredMaybePath {
    /// The hovered range is non-empty and lies inside the line.
    pub open spec fn wf(&self) -> bool {
        self.hovered_word_range.wf_nonempty(self.line@.len())
    }

    /// For file IRIs the IRI is always the whole line.
    pub fn from_file_url(file_iri: Vec<u8>, file_iri_match: GridMatch) -> (r: HoveredMaybePath)
        requires
            file_iri@.len() > 0,
        ensures
            r.line == file_iri,
            r.hovered_word_range.start == 0 && r.hovered_word_range.end == file_iri@.len(),
            r.hovered_word_match == file_iri_match,
            r.wf(),
    {
        let len = file_iri.len();
        HoveredMaybePath {
            line: file_iri,
            hovered_word_range: ByteRange { start: 0, end: len },
            hovered_word_match: file_iri_match,
        }
    }

    /// Assembles the flat line around a hovered word from the text to its
    /// left, the word itself, and the text to its right, recording the
    /// word's byte range within the line.
    pub fn from_line_parts(
        left: Vec<u8>,
        word: &[u8],
        rest: &[u8],
        word_match: GridMatch,
    ) -> (r: HoveredMaybePath)
        requires
            word@.len() > 0,
        ensures
            r.line@ == left@ + word@ + rest@,
            r.hovered_word_range@ == (left@.len() as int, left@.len() + word@.len() as int),
            r.hovered_word_match == word_match,
            r.wf(),
    {
        let mut line = left;
        let word_start = line.len();
        let mut i: usize = 0;
        let ghost left_view = line@;
        while i < word.len()
            invariant
                0 <= i <= word@.len(),
                line@ == left_view + word@.subrange(0, i as int),
            decreases word@.len() - i,
        {
            line.push(word[i]);
            proof {
                assert(line@ =~= left_view + word@.subrange(0, i as int + 1));
            }
            i = i + 1;
        }
        let word_end = line.len();
        let ghost mid_view = line@;
        let mut j: usize = 0;
        while j < rest.len()
            invariant
                0 <= j <= rest@.len(),
                line@ == mid_view + rest@.subrange(0, j as int),
            decreases rest@.len() - j,
        {
            line.push(rest[j]);
            proof {
                assert(line@ =~= mid_view + rest@.subrange(0, j as int + 1));
            }
            j = j + 1;
        }
        proof {
            assert(line@ =~= left_view + word@ + rest@);
        }
        HoveredMaybePath {
            line,
            hovered_word_range: ByteRange { start: word_start, end: word_end },
            hovered_word_match: word_match,
        }
    }

    /// Wraps an already-assembled line and word range.
    pub fn from_line(
        line: Vec<u8>,
        hovered_word_range: ByteRange,
        hovered_word_match: GridMatch,
    ) -> (r: HoveredMaybePath)
        requires
            hovered_word_range.wf_nonempty(line@.len()),
        ensures
            r.line == line,
            r.hovered_word_range == hovered_word_range,
            r.hovered_word_match == hovered_word_match,
            r.wf(),
    {
        HoveredMaybePath { line, hovered_word_range, hovered_word_match }
    }

    /// The text of the line at `range`.
    pub fn text_at(&self, range: ByteRange) -> (r: Vec<u8>)
        requires
            range.wf(self.line@.len()),
        ensures
            r@ == self.line@.subrange(range.start as int, range.end as int),
    {
        copy_range(self.line.as_slice(), range.start, range.end)
    }

    /// The line and the hovered word's range within it, as owned values.
    pub fn to_line_and_word_range(&self) -> (r: (Vec<u8>, ByteRange))
        ensures
            r.0@ == self.line@,
            r.1 == self.hovered_word_range,
    {
        let len = self.line.len();
        let line = copy_range(self.line.as_slice(), 0, len);
        proof {
            assert(self.line@.subrange(0, self.line@.len() as int) =~= self.line@);
        }
        (line, self.hovered_word_range)
    }

    /// The movements that take the hovered word's grid endpoints to the
    /// endpoints of `target`, counted in grapheme clusters.
    pub fn match_steps_from_text_range(&self, target: ByteRange) -> (r: (GridStep, GridStep))
        requires
            self.wf(),
            target.wf(self.line@.len()),
        ensures
            r.0 == step_between(
                self.line@,
                self.hovered_word_range.start as int,
                target.start as int,
            ),
            r.1 == step_between(self.line@, self.hovered_word_range.end as int, target.end as int),
    {
        let start_step = grid_step(
            self.line.as_slice(),
            self.hovered_word_range.start,
            target.start,
        );
        let end_step = grid_step(self.line.as_slice(), self.hovered_word_range.end, target.end);
        (start_step, end_step)
    }

    /// Computes the best heuristic match for immediate link highlighting:
    /// the interior of the longest surrounding symbols, else the hovered word
    /// itself when it looks like a path, else the preapproved colon capture
    /// overlapping the hover. The returned steps move the hovered word's grid
    /// match onto the chosen range.
    pub fn best_heuristic_hovered_word(&self) -> (r: Option<HoveredWord>)
        requires
            self.wf(),
        ensures
            match r {
                Some(h) => {
                    &&& best_heuristic_range(
                        self.line@,
                        self.hovered_word_range.start as int,
                        self.hovered_word_range.end as int,
                    ) == Some(h.range@)
                    &&& h.range.wf(self.line@.len())
                    &&& h.start_step == step_between(
                        self.line@,
                        self.hovered_word_range.start as int,
                        h.range.start as int,
                    )
                    &&& h.end_step == step_between(
                        self.line@,
                        self.hovered_word_range.end as int,
                        h.range.end as int,
                    )
                },
                None => best_heuristic_range(
                    self.line@,
                    self.hovered_word_range.start as int,
                    self.hovered_word_range.end as int,
                ) is None,
            },
    {
        let line = self.line.as_slice();
        let hovered = self.hovered_word_range;
        match longest_surrounding_symbols_match(line, hovered) {
            Some(sr) => {
                let range = ByteRange { start: sr.start + 1, end: sr.end - 1 };
                let (start_step, end_step) = self.match_steps_from_text_range(range);
                Some(HoveredWord { range, start_step, end_step })
            },
            None => {
                if self.looks_like_a_path_match(hovered) {
                    Some(
                        HoveredWord {
                            range: hovered,
                            start_step: GridStep::Stay,
                            end_step: GridStep::Stay,
                        },
                    )
                } else {
                    match preapproved_path_match(line) {
                        Some(c) => {
                            let overlap = (hovered.start <= c.start && c.start < hovered.end) || (
                            hovered.start <= c.end && c.end < hovered.end);
                            if overlap {
                                let (start_step, end_step) = self.match_steps_from_text_range(c);
                                Some(HoveredWord { range: c, start_step, end_step })
                            } else {
                                None
                            }
                        },
                        None => None,
                    }
                }
            },
        }
    }

    /// Whether the text at `word_range` looks like a path: it contains a
    /// dot or a separator.
    pub fn looks_like_a_path_match(&self, word_range: ByteRange) -> (r: bool)
        requires
            word_range.wf(self.line@.len()),
        ensures
            r == looks_like_a_path(
                self.line@.subrange(word_range.start as int, word_range.end as int),
            ),
    {
        let ghost w = self.line@.subrange(word_range.start as int, word_range.end as int);
        let mut i: usize = word_range.start;
        while i < word_range.end
            invariant
                word_range.start <= i <= word_range.end <= self.line@.len(),
                w == self.line@.subrange(word_range.start as int, word_range.end as int),
                forall|k: int|
                    0 <= k < i - word_range.start ==> !((w[k] == 46) || (w[k] == 47) || (w[k]
                        == 92)),
            decreases word_range.end - i,
        {
            let b = self.line[i];
            proof {
                assert(w[i as int - word_range.start as int] == self.line@[i as int]);
            }
            if b == 46 || b == 47 || b == 92 {
                return true;
            }
            i = i + 1;
        }
        false
    }
}

} // verus!
