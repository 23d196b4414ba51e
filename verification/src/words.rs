//! Word segmentation of a terminal line.
//!
//! A "word" is a maximal run of path-friendly bytes: everything except ASCII
//! whitespace and the two quote characters. All bytes of a multi-byte UTF-8
//! scalar are path-friendly, so words never split a scalar. The candidate
//! tiers sweep these words, and the preapproved "word ending in a colon"
//! pattern is recognized over them as well.

use vstd::prelude::*;

use crate::ByteRange;

verus! {

/// Path-friendly byte: not ASCII whitespace (space, tab, line feed, vertical
/// tab, form feed, carriage return) and not a double or single quote.
pub open spec fn is_word_byte(b: u8) -> bool {
    b != 32 && b != 9 && b != 10 && b != 11 && b != 12 && b != 13 && b != 34 && b != 39
}

fn word_byte(b: u8) -> (r: bool)
    ensures
        r == is_word_byte(b),
{
    b != 32 && b != 9 && b != 10 && b != 11 && b != 12 && b != 13 && b != 34 && b != 39
}

/// First position at or after `i` (and below `to`) that does not hold a word
/// byte; `to` if every byte of `s[i..to)` is a word byte.
pub open spec fn run_end(s: Seq<u8>, i: int, to: int) -> int
    decreases to - i,
{
    if i >= to {
        to
    } else if is_word_byte(s[i]) {
        run_end(s, i + 1, to)
    } else {
        i
    }
}

pub proof fn lemma_run_end_bounds(s: Seq<u8>, i: int, to: int)
    requires
        i <= to,
    ensures
        i <= run_end(s, i, to) <= to,
        i < to && is_word_byte(s[i]) ==> i < run_end(s, i, to),
    decreases to - i,
{
    if i < to && is_word_byte(s[i]) {
        lemma_run_end_bounds(s, i + 1, to);
    }
}

/// The maximal word runs of `s[from..to)`, in order, as absolute ranges.
/// The slice is segmented on its own: a word byte just before `from` or just
/// after `to` does not extend a run past the slice.
pub open spec fn word_list(s: Seq<u8>, from: int, to: int) -> Seq<(int, int)>
    decreases to - from when from <= to via word_list_decreases
{
    if from >= to {
        Seq::empty()
    } else if !is_word_byte(s[from]) {
        word_list(s, from + 1, to)
    } else {
        seq![(from, run_end(s, from, to))] + word_list(s, run_end(s, from, to), to)
    }
}

#[via_fn]
proof fn word_list_decreases(s: Seq<u8>, from: int, to: int) {
    if from < to && is_word_byte(s[from]) {
        lemma_run_end_bounds(s, from, to);
    }
}

/// `[a, b)` is a maximal run of word bytes within the slice `s[from..to)`.
pub open spec fn is_word_run(s: Seq<u8>, from: int, to: int, a: int, b: int) -> bool {
    &&& from <= a < b <= to
    &&& forall|k: int| a <= k < b ==> is_word_byte(#[trigger] s[k])
    &&& a == from || !is_word_byte(s[a - 1])
    &&& b == to || !is_word_byte(s[b])
}

pub proof fn lemma_run_end_is_run(s: Seq<u8>, i: int, to: int)
    requires
        0 <= i < to <= s.len(),
        is_word_byte(s[i]),
    ensures
        forall|k: int| i <= k < run_end(s, i, to) ==> is_word_byte(#[trigger] s[k]),
        run_end(s, i, to) == to || !is_word_byte(s[run_end(s, i, to)]),
        i < run_end(s, i, to) <= to,
    decreases to - i,
{
    lemma_run_end_bounds(s, i, to);
    assert(run_end(s, i, to) == run_end(s, i + 1, to));
    if i + 1 < to && is_word_byte(s[i + 1]) {
        lemma_run_end_is_run(s, i + 1, to);
    } else {
        assert(run_end(s, i + 1, to) == i + 1);
    }
}

/// Every element of `word_list` is a maximal word run of the slice.
pub proof fn lemma_word_list_runs(s: Seq<u8>, from: int, to: int)
    requires
        0 <= from <= to <= s.len(),
    ensures
        forall|i: int|
            0 <= i < word_list(s, from, to).len() ==> is_word_run(
                s,
                from,
                to,
                (#[trigger] word_list(s, from, to)[i]).0,
                word_list(s, from, to)[i].1,
            ),
    decreases to - from,
{
    let full = word_list(s, from, to);
    if from >= to {
    } else if !is_word_byte(s[from]) {
        lemma_word_list_runs(s, from + 1, to);
        assert forall|i: int|
            0 <= i < full.len() implies is_word_run(s, from, to, (#[trigger] full[i]).0, full[i].1) by {
            assert(full == word_list(s, from + 1, to));
            assert(is_word_run(s, from + 1, to, full[i].0, full[i].1));
        }
    } else {
        let e = run_end(s, from, to);
        lemma_run_end_is_run(s, from, to);
        lemma_word_list_runs(s, e, to);
        assert forall|i: int|
            0 <= i < full.len() implies is_word_run(s, from, to, (#[trigger] full[i]).0, full[i].1) by {
            if i == 0 {
                assert(full[0] == (from, e));
            } else {
                let rest = word_list(s, e, to);
                assert(full[i] == rest[i - 1]);
                assert(is_word_run(s, e, to, rest[i - 1].0, rest[i - 1].1));
                if rest[i - 1].0 == e {
                    assert(is_word_byte(s[e]));
                }
            }
        }
    }
}

/// Collects the maximal word runs of `line[from..to)` in order.
pub fn words_in(line: &[u8], from: usize, to: usize) -> (r: Vec<ByteRange>)
    requires
        from <= to <= line@.len(),
    ensures
        r@.map_values(|br: ByteRange| br@) == word_list(line@, from as int, to as int),
        forall|i: int| 0 <= i < r@.len() ==> (#[trigger] r@[i]).wf_nonempty(to as nat),
{
    let ghost s = line@;
    let mut out: Vec<ByteRange> = Vec::new();
    let mut i: usize = from;
    while i < to
        invariant
            from <= i <= to <= line@.len(),
            s == line@,
            word_list(s, from as int, to as int) == out@.map_values(|br: ByteRange| br@)
                + word_list(s, i as int, to as int),
            forall|k: int| 0 <= k < out@.len() ==> (#[trigger] out@[k]).wf_nonempty(to as nat),
        decreases to - i,
    {
        if !word_byte(line[i]) {
            i = i + 1;
        } else {
            let start = i;
            let mut j: usize = i;
            while j < to && word_byte(line[j])
                invariant
                    i <= j <= to <= line@.len(),
                    s == line@,
                    run_end(s, i as int, to as int) == run_end(s, j as int, to as int),
                decreases to - j,
            {
                j = j + 1;
            }
            proof {
                lemma_run_end_bounds(s, i as int, to as int);
                assert(run_end(s, j as int, to as int) == j as int);
                assert(word_list(s, i as int, to as int) == seq![(i as int, j as int)]
                    + word_list(s, j as int, to as int));
            }
            let ghost pre = out@;
            out.push(ByteRange { start, end: j });
            proof {
                let f = |br: ByteRange| br@;
                assert(out@.map_values(f) =~= pre.map_values(f).push((start as int, j as int)));
                assert(pre.map_values(f) + (seq![(start as int, j as int)] + word_list(
                    s,
                    j as int,
                    to as int,
                )) =~= out@.map_values(f) + word_list(s, j as int, to as int));
            }
            i = j;
        }
    }
    proof {
        assert(word_list(s, from as int, to as int) =~= out@.map_values(|br: ByteRange| br@));
    }
    out
}

/// A word run qualifies for the preapproved pattern when it holds a colon
/// strictly after its first byte: the bytes before that colon form the path.
pub open spec fn run_qualifies(s: Seq<u8>, w: (int, int)) -> bool {
    exists|p: int| w.0 < p < w.1 && s[p] == 58
}

/// Last colon at or after `a` and below `b` in `s`, scanning from the right.
pub open spec fn last_colon(s: Seq<u8>, a: int, b: int) -> Option<int>
    decreases b - a,
{
    if b <= a {
        None
    } else if s[b - 1] == 58 {
        Some(b - 1)
    } else {
        last_colon(s, a, b - 1)
    }
}

pub proof fn lemma_last_colon_props(s: Seq<u8>, a: int, b: int)
    requires
        a <= b,
    ensures
        match last_colon(s, a, b) {
            Some(p) => a <= p < b && s[p] == 58 && (forall|q: int| p < q < b ==> s[q] != 58),
            None => forall|q: int| a <= q < b ==> s[q] != 58,
        },
    decreases b - a,
{
    if b > a && s[b - 1] != 58 {
        lemma_last_colon_props(s, a, b - 1);
    }
}

/// First qualifying word run of `ws` at or after index `i`.
pub open spec fn first_qualifying_from(s: Seq<u8>, ws: Seq<(int, int)>, i: int) -> Option<
    (int, int),
>
    decreases ws.len() - i,
{
    if i < 0 || i >= ws.len() {
        None
    } else if run_qualifies(s, ws[i]) {
        Some(ws[i])
    } else {
        first_qualifying_from(s, ws, i + 1)
    }
}

/// The range captured by the preapproved "word ending in a colon" pattern:
/// the first word run of the line that holds a colon strictly after its first
/// byte, truncated at its last colon. This mirrors a leftmost greedy match of
/// a word-run pattern followed by a literal colon, capturing the run part.
pub open spec fn preapproved_capture(s: Seq<u8>) -> Option<(int, int)> {
    match first_qualifying_from(s, word_list(s, 0, s.len() as int), 0) {
        Some(w) => match last_colon(s, w.0 + 1, w.1) {
            Some(p) => Some((w.0, p)),
            None => None,
        },
        None => None,
    }
}

proof fn lemma_first_qualifying_in(s: Seq<u8>, ws: Seq<(int, int)>, i: int)
    requires
        0 <= i,
    ensures
        match first_qualifying_from(s, ws, i) {
            Some(w) => exists|k: int| i <= k < ws.len() && ws[k] == w && run_qualifies(s, w),
            None => true,
        },
    decreases ws.len() - i,
{
    if i < ws.len() {
        if run_qualifies(s, ws[i]) {
            assert(i <= i < ws.len() && ws[i] == ws[i] && run_qualifies(s, ws[i]));
        } else {
            lemma_first_qualifying_in(s, ws, i + 1);
        }
    }
}

/// A returned capture starts at the start of a word run, is non-empty, and
/// ends just before a colon of the line.
pub proof fn lemma_preapproved_props(s: Seq<u8>)
    ensures
        match preapproved_capture(s) {
            Some(c) => {
                &&& 0 <= c.0 < c.1 < s.len()
                &&& s[c.1] == 58
                &&& c.0 == 0 || !is_word_byte(s[c.0 - 1])
            },
            None => true,
        },
{
    let wl = word_list(s, 0, s.len() as int);
    lemma_first_qualifying_in(s, wl, 0);
    lemma_word_list_runs(s, 0, s.len() as int);
    match first_qualifying_from(s, wl, 0) {
        Some(w) => {
            let k = choose|k: int| 0 <= k < wl.len() && wl[k] == w && run_qualifies(s, w);
            assert(is_word_run(s, 0, s.len() as int, wl[k].0, wl[k].1));
            lemma_last_colon_props(s, w.0 + 1, w.1);
        },
        None => {},
    }
}

/// Last colon with index in `[a, b)`.
fn last_colon_in(line: &[u8], a: usize, b: usize) -> (r: Option<usize>)
    requires
        a <= b <= line@.len(),
    ensures
        match r {
            Some(p) => last_colon(line@, a as int, b as int) == Some(p as int),
            None => last_colon(line@, a as int, b as int) is None,
        },
{
    let mut j: usize = b;
    while j > a
        invariant
            a <= j <= b <= line@.len(),
            last_colon(line@, a as int, b as int) == last_colon(line@, a as int, j as int),
        decreases j,
    {
        if line[j - 1] == 58 {
            return Some(j - 1);
        }
        j = j - 1;
    }
    None
}

/// Finds the preapproved "word ending in a colon" capture on the line, if any.
/// This is the default tier's built-in pattern for tool output of the shape
/// `file:row:col: message` or `file(row,col): message`.
pub fn preapproved_path_match(line: &[u8]) -> (r: Option<ByteRange>)
    ensures
        match r {
            Some(br) => preapproved_capture(line@) == Some(br@) && 0 <= br.start < br.end
                <= line@.len(),
            None => preapproved_capture(line@) is None,
        },
{
    let n = line.len();
    let ws = words_in(line, 0, n);
    let ghost s = line@;
    let ghost wl = word_list(s, 0, n as int);
    let mut i: usize = 0;
    while i < ws.len()
        invariant
            0 <= i <= ws@.len(),
            s == line@,
            n == line@.len(),
            wl == word_list(s, 0, n as int),
            ws@.map_values(|br: ByteRange| br@) == wl,
            forall|k: int| 0 <= k < ws@.len() ==> (#[trigger] ws@[k]).wf_nonempty(n as nat),
            first_qualifying_from(s, wl, 0) == first_qualifying_from(s, wl, i as int),
        decreases ws@.len() - i,
    {
        let w = ws[i];
        proof {
            assert(wl[i as int] == ws@[i as int]@);
        }
        let p = last_colon_in(line, w.start + 1, w.end);
        proof {
            lemma_last_colon_props(s, w.start as int + 1, w.end as int);
        }
        match p {
            Some(p) => {
                proof {
                    assert(run_qualifies(s, wl[i as int]));
                    assert(first_qualifying_from(s, wl, i as int) == Some(wl[i as int]));
                }
                return Some(ByteRange { start: w.start, end: p });
            },
            None => {
                proof {
                    assert(!run_qualifies(s, wl[i as int])) by {
                        if run_qualifies(s, wl[i as int]) {
                            let q = choose|q: int|
                                w.start < q < w.end && s[q] == 58;
                            assert(s[q] != 58);
                        }
                    }
                }
            },
        }
        i = i + 1;
    }
    None
}

} // verus!
