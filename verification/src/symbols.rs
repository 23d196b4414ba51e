//! Surrounding-symbol detection: the longest pair of common path-surrounding
//! symbols (`""`, `''`, `[]`, `()`) on the line whose span covers the hovered
//! word. Its interior is usually the real path, so it outranks the raw word.

use vstd::prelude::*;

use crate::ByteRange;

verus! {

/// First index of byte `b` in `s` at or after `i`.
pub open spec fn find_byte_from(s: Seq<u8>, b: u8, i: int) -> Option<int>
    decreases s.len() - i,
{
    if i < 0 || i >= s.len() {
        None
    } else if s[i] == b {
        Some(i)
    } else {
        find_byte_from(s, b, i + 1)
    }
}

/// Last index of byte `b` in `s` strictly below `j`.
pub open spec fn rfind_byte_before(s: Seq<u8>, b: u8, j: int) -> Option<int>
    decreases j,
{
    if j <= 0 || j > s.len() {
        None
    } else if s[j - 1] == b {
        Some(j - 1)
    } else {
        rfind_byte_before(s, b, j - 1)
    }
}

/// The candidate span for one symbol pair `(open, close)`: from the first
/// occurrence of the opener to just past the last occurrence of the closer,
/// provided the opener comes first and the span contains both the first and
/// the last byte of the word.
pub open spec fn pair_candidate(s: Seq<u8>, ws: int, we: int, open: u8, close: u8) -> Option<
    (int, int),
> {
    match (find_byte_from(s, open, 0), rfind_byte_before(s, close, s.len() as int)) {
        (Some(f), Some(l)) => if f < l && f <= ws <= l && f <= we - 1 <= l {
            Some((f, l + 1))
        } else {
            None
        },
        _ => None,
    }
}

/// Keeps the strictly longer of two candidate spans (the earlier one on ties).
pub open spec fn longer_of(best: Option<(int, int)>, cand: Option<(int, int)>) -> Option<
    (int, int),
> {
    match cand {
        None => best,
        Some(c) => match best {
            None => cand,
            Some(b) => if c.1 - c.0 > b.1 - b.0 {
                cand
            } else {
                best
            },
        },
    }
}

/// Longest span of matching surrounding symbols on the line containing the
/// word `[ws, we)`, considering `""`, `''`, `[]` and `()` in that order.
pub open spec fn longest_surrounding(s: Seq<u8>, ws: int, we: int) -> Option<(int, int)> {
    let b1 = longer_of(None, pair_candidate(s, ws, we, 34, 34));
    let b2 = longer_of(b1, pair_candidate(s, ws, we, 39, 39));
    let b3 = longer_of(b2, pair_candidate(s, ws, we, 91, 93));
    longer_of(b3, pair_candidate(s, ws, we, 40, 41))
}

/// A returned span starts with its opener, ends with its closer, is at least
/// two bytes wide, and covers the word.
pub proof fn lemma_longest_surrounding_props(s: Seq<u8>, ws: int, we: int)
    ensures
        match longest_surrounding(s, ws, we) {
            Some(sr) => {
                &&& 0 <= sr.0 < sr.1 - 1 < s.len()
                &&& sr.0 <= ws <= sr.1 - 1
                &&& sr.0 <= we - 1 <= sr.1 - 1
                &&& is_symbol_pair(s[sr.0], s[sr.1 - 1])
            },
            None => true,
        },
{
    lemma_pair_candidate_props(s, ws, we, 34, 34);
    lemma_pair_candidate_props(s, ws, we, 39, 39);
    lemma_pair_candidate_props(s, ws, we, 91, 93);
    lemma_pair_candidate_props(s, ws, we, 40, 41);
    let r = longest_surrounding(s, ws, we);
    if r is Some {
        assert(r == pair_candidate(s, ws, we, 34, 34) || r == pair_candidate(s, ws, we, 39, 39)
            || r == pair_candidate(s, ws, we, 91, 93) || r == pair_candidate(s, ws, we, 40, 41));
    }
}

/// `(open, close)` is one of the recognized surrounding-symbol pairs.
pub open spec fn is_symbol_pair(open: u8, close: u8) -> bool {
    ||| open == 34 && close == 34
    ||| open == 39 && close == 39
    ||| open == 91 && close == 93
    ||| open == 40 && close == 41
}

proof fn lemma_find_props(s: Seq<u8>, b: u8, i: int)
    requires
        0 <= i <= s.len(),
    ensures
        match find_byte_from(s, b, i) {
            Some(f) => i <= f < s.len() && s[f] == b,
            None => true,
        },
    decreases s.len() - i,
{
    if i < s.len() && s[i] != b {
        lemma_find_props(s, b, i + 1);
    }
}

proof fn lemma_rfind_props(s: Seq<u8>, b: u8, j: int)
    requires
        0 <= j <= s.len(),
    ensures
        match rfind_byte_before(s, b, j) {
            Some(l) => 0 <= l < j && s[l] == b,
            None => true,
        },
    decreases j,
{
    if 0 < j <= s.len() && s[j - 1] != b {
        lemma_rfind_props(s, b, j - 1);
    }
}

proof fn lemma_pair_candidate_props(s: Seq<u8>, ws: int, we: int, open: u8, close: u8)
    ensures
        match pair_candidate(s, ws, we, open, close) {
            Some(c) => {
                &&& 0 <= c.0 < c.1 - 1 < s.len()
                &&& c.0 <= ws <= c.1 - 1
                &&& c.0 <= we - 1 <= c.1 - 1
                &&& s[c.0] == open && s[c.1 - 1] == close
            },
            None => true,
        },
{
    lemma_find_props(s, open, 0);
    lemma_rfind_props(s, close, s.len() as int);
}

/// First index of byte `b` in `line`, if any.
fn find_byte(line: &[u8], b: u8) -> (r: Option<usize>)
    ensures
        match r {
            Some(f) => find_byte_from(line@, b, 0) == Some(f as int),
            None => find_byte_from(line@, b, 0) is None,
        },
{
    let mut i: usize = 0;
    while i < line.len()
        invariant
            0 <= i <= line@.len(),
            find_byte_from(line@, b, 0) == find_byte_from(line@, b, i as int),
        decreases line@.len() - i,
    {
        if line[i] == b {
            return Some(i);
        }
        i = i + 1;
    }
    None
}

/// Last index of byte `b` in `line`, if any.
fn rfind_byte(line: &[u8], b: u8) -> (r: Option<usize>)
    ensures
        match r {
            Some(l) => rfind_byte_before(line@, b, line@.len() as int) == Some(l as int),
            None => rfind_byte_before(line@, b, line@.len() as int) is None,
        },
{
    let mut j: usize = line.len();
    while j > 0
        invariant
            0 <= j <= line@.len(),
            rfind_byte_before(line@, b, line@.len() as int) == rfind_byte_before(
                line@,
                b,
                j as int,
            ),
        decreases j,
    {
        if line[j - 1] == b {
            return Some(j - 1);
        }
        j = j - 1;
    }
    None
}

/// The candidate span for one symbol pair, as executable code.
fn pair_candidate_exec(line: &[u8], word_range: ByteRange, open: u8, close: u8) -> (r: Option<
    ByteRange,
>)
    requires
        word_range.start < word_range.end,
    ensures
        match r {
            Some(br) => pair_candidate(line@, word_range.start as int, word_range.end as int, open,
                close) == Some(br@) && br.start + 1 < br.end <= line@.len(),
            None => pair_candidate(line@, word_range.start as int, word_range.end as int, open,
                close) is None,
        },
{
    let first = find_byte(line, open);
    let last = rfind_byte(line, close);
    match (first, last) {
        (Some(f), Some(l)) => {
            let n = line.len();
            proof {
                lemma_find_props(line@, open, 0);
                lemma_rfind_props(line@, close, line@.len() as int);
                assert(l as int + 1 <= n as int);
            }
            if f < l && f <= word_range.start && word_range.start <= l && f <= word_range.end - 1
                && word_range.end - 1 <= l {
                Some(ByteRange { start: f, end: l + 1 })
            } else {
                None
            }
        },
        _ => None,
    }
}

/// Keeps the strictly longer of two candidate spans.
fn longer_of_exec(best: Option<ByteRange>, cand: Option<ByteRange>) -> (r: Option<ByteRange>)
    requires
        match best {
            Some(b) => b.start <= b.end,
            None => true,
        },
        match cand {
            Some(c) => c.start <= c.end,
            None => true,
        },
    ensures
        view_opt(r) == longer_of(view_opt(best), view_opt(cand)),
        r is Some ==> r == best || r == cand,
{
    match cand {
        None => best,
        Some(c) => match best {
            None => Some(c),
            Some(b) => if c.end - c.start > b.end - b.start {
                Some(c)
            } else {
                Some(b)
            },
        },
    }
}

/// View of an optional byte range as an optional pair of mathematical ints.
pub open spec fn view_opt(r: Option<ByteRange>) -> Option<(int, int)> {
    match r {
        Some(br) => Some(br@),
        None => None,
    }
}

/// Returns the longest range of matching surrounding symbols on `line` which
/// contains `word_range`, or `None` when no recognized pair covers the word.
pub fn longest_surrounding_symbols_match(line: &[u8], word_range: ByteRange) -> (r: Option<
    ByteRange,
>)
    requires
        word_range.start < word_range.end,
    ensures
        view_opt(r) == longest_surrounding(line@, word_range.start as int, word_range.end as int),
        match r {
            Some(br) => 0 <= br.start && br.start + 1 < br.end <= line@.len(),
            None => true,
        },
{
    let b1 = longer_of_exec(None, pair_candidate_exec(line, word_range, 34, 34));
    let b2 = longer_of_exec(b1, pair_candidate_exec(line, word_range, 39, 39));
    let b3 = longer_of_exec(b2, pair_candidate_exec(line, word_range, 91, 93));
    let r = longer_of_exec(b3, pair_candidate_exec(line, word_range, 40, 41));
    proof {
        lemma_longest_surrounding_props(line@, word_range.start as int, word_range.end as int);
    }
    r
}

} // verus!
