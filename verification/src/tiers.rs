//! The tiered candidate generator. The default tier (cheap, synchronous)
//! yields the hovered word, the surrounding-symbol interior, the preapproved
//! colon capture, and a short line-ends-in-a-path sweep. The advanced tier
//! adds user regexes and the unbounded sweep; the exhaustive tier crosses
//! every word start at or before the hover with every word end at or after
//! it.

use vstd::prelude::*;

use crate::ByteRange;
use crate::copy_range;
use crate::is_utf8_boundary;
use crate::words::word_list;
use crate::words::words_in;
use crate::words::is_word_byte;
use crate::words::is_word_run;
use crate::words::lemma_word_list_runs;
use crate::words::preapproved_capture;
use crate::words::preapproved_path_match;
use crate::symbols::longest_surrounding;
use crate::symbols::longest_surrounding_symbols_match;
use crate::symbols::view_opt;
use crate::variant::MaybePathVariant;
use crate::variant::VariantModel;
use crate::variant::variant_model_of;
use crate::hover::HoveredMaybePath;
use crate::hover::overlaps_hover;

verus! {

#[verifier::external_type_specification]
#[verifier::external_body]
pub struct ExRegex(regex::Regex);

/// Relies on regex::Regex::captures and Captures::name: when the regex
/// matches and has a group named `path`, the group's `start()`/`end()` are
/// byte offsets into the haystack with `start <= end <= len`, lying on UTF-8
/// scalar boundaries (`Match::as_str` slices the haystack with them). Lines
/// that are not valid UTF-8 yield no match.
#[verifier::external_body]
fn regex_path_capture(re: &regex::Regex, line: &[u8]) -> (r: Option<(usize, usize)>)
    ensures
        match r {
            Some((cs, ce)) => cs <= ce <= line@.len() && is_utf8_boundary(line@, cs as int)
                && is_utf8_boundary(line@, ce as int),
            None => true,
        },
{
    let Ok(text) = core::str::from_utf8(line) else {
        return None;
    };
    re.captures(text).and_then(|captures| captures.name("path")).map(|m| (m.start(), m.end()))
}

/// Walks the regex list in order and returns the first `path` capture that
/// overlaps the hovered word. Which regex matches, and where, is decided by
/// the regex engine; whatever comes back lies within the line on scalar
/// boundaries and overlaps the hover.
pub fn path_regex_match(
    line: &[u8],
    hovered_word_range: ByteRange,
    path_regexes: &Vec<regex::Regex>,
) -> (r: Option<ByteRange>)
    ensures
        match r {
            Some(br) => br.start <= br.end <= line@.len() && is_utf8_boundary(
                line@,
                br.start as int,
            ) && is_utf8_boundary(line@, br.end as int) && overlaps_hover(
                hovered_word_range.start as int,
                hovered_word_range.end as int,
                br@,
            ),
            None => true,
        },
{
    let mut i: usize = 0;
    while i < path_regexes.len()
        invariant
            0 <= i <= path_regexes@.len(),
        decreases path_regexes@.len() - i,
    {
        match regex_path_capture(&path_regexes[i], line) {
            Some((cs, ce)) => {
                let overlap = (hovered_word_range.start <= cs && cs < hovered_word_range.end) || (
                hovered_word_range.start <= ce && ce < hovered_word_range.end);
                if overlap {
                    return Some(ByteRange { start: cs, end: ce });
                }
            },
            None => {},
        }
        i = i + 1;
    }
    None
}

/// The surrounding-symbol member of the default tier: the stripped interior
/// of the longest surrounding pair, when one exists and differs from the
/// hovered word itself.
pub open spec fn surrounding_part(s: Seq<u8>, hs: int, he: int) -> Seq<VariantModel> {
    match longest_surrounding(s, hs, he) {
        Some(sr) => if sr != (hs, he) {
            seq![variant_model_of(s, sr.0 + 1, sr.1 - 1)]
        } else {
            Seq::<VariantModel>::empty()
        },
        None => Seq::<VariantModel>::empty(),
    }
}

/// The preapproved-capture member of the default tier: the colon capture,
/// when it exists and overlaps the hover.
pub open spec fn preapproved_part(s: Seq<u8>, hs: int, he: int) -> Seq<VariantModel> {
    match preapproved_capture(s) {
        Some(c) => if overlaps_hover(hs, he, c) {
            seq![variant_model_of(s, c.0, c.1)]
        } else {
            Seq::<VariantModel>::empty()
        },
        None => Seq::<VariantModel>::empty(),
    }
}

/// At most the first `take_n` words of the line (whole words ending at or
/// before the hover's end), skipping the first `skip_n`.
pub open spec fn window(ws: Seq<(int, int)>, skip_n: int, take_n: int) -> Seq<(int, int)> {
    if ws.len() <= skip_n {
        Seq::empty()
    } else {
        let rest = ws.skip(skip_n);
        if rest.len() <= take_n {
            rest
        } else {
            rest.take(take_n)
        }
    }
}

/// The line-ends-in-a-path sweep: candidates from each selected word start to
/// the end of the line.
pub open spec fn line_ends_part(
    s: Seq<u8>,
    he: int,
    skip_n: int,
    take_n: int,
) -> Seq<VariantModel> {
    window(word_list(s, 0, he), skip_n, take_n).map_values(
        |w: (int, int)| variant_model_of(s, w.0, s.len() as int),
    )
}

/// The unbounded tail of the sweep, used by the advanced tier.
pub open spec fn line_ends_rest(s: Seq<u8>, he: int, skip_n: int) -> Seq<VariantModel> {
    let ws = word_list(s, 0, he);
    if ws.len() <= skip_n {
        Seq::empty()
    } else {
        ws.skip(skip_n).map_values(|w: (int, int)| variant_model_of(s, w.0, s.len() as int))
    }
}

/// The complete default tier, in order: the hovered word, the surrounding
/// interior, the preapproved capture, then the short sweep reversed (one
/// prefix stripped is the most likely path).
pub open spec fn default_tier_model(s: Seq<u8>, hs: int, he: int) -> Seq<VariantModel> {
    seq![variant_model_of(s, hs, he)] + surrounding_part(s, hs, he) + preapproved_part(s, hs, he)
        + line_ends_part(s, he, 0, 2).reverse()
}

/// The original matched maybe path from a hover or click in the terminal,
/// with the user's configured path regexes for the advanced tier.
pub struct MaybePath {
    pub line: Vec<u8>,
    pub hovered_word_range: ByteRange,
    pub path_hyperlink_regexes: Vec<regex::Regex>,
}

/// Words selected by the default tier's sweep: the first two.
pub const MAX_MAIN_THREAD_PREFIX_WORDS: usize = 2;

impl MaybePath {
    /// The hovered range is non-empty and lies inside the line.
    pub open spec fn wf(&self) -> bool {
        self.hovered_word_range.wf_nonempty(self.line@.len())
    }

    pub fn new(
        line: Vec<u8>,
        hovered_word_range: ByteRange,
        path_regexes: Vec<regex::Regex>,
    ) -> (r: MaybePath)
        requires
            hovered_word_range.wf_nonempty(line@.len()),
        ensures
            r.line == line,
            r.hovered_word_range == hovered_word_range,
            r.path_hyperlink_regexes == path_regexes,
            r.wf(),
    {
        MaybePath { line, hovered_word_range, path_hyperlink_regexes: path_regexes }
    }

    /// Builds a `MaybePath` from a hovered word, cloning its line.
    pub fn from_hovered_maybe_path(
        hovered_maybe_path: &HoveredMaybePath,
        path_regexes: Vec<regex::Regex>,
    ) -> (r: MaybePath)
        requires
            hovered_maybe_path.wf(),
        ensures
            r.line@ == hovered_maybe_path.line@,
            r.hovered_word_range == hovered_maybe_path.hovered_word_range,
            r.path_hyperlink_regexes == path_regexes,
            r.wf(),
    {
        let len = hovered_maybe_path.line.len();
        let line = copy_range(hovered_maybe_path.line.as_slice(), 0, len);
        proof {
            assert(hovered_maybe_path.line@.subrange(0, hovered_maybe_path.line@.len() as int)
                =~= hovered_maybe_path.line@);
        }
        MaybePath {
            line,
            hovered_word_range: hovered_maybe_path.hovered_word_range,
            path_hyperlink_regexes: path_regexes,
        }
    }

    /// All default-tier maybe path variants, in order. This tier is pure and
    /// cheap: its output is a function of the line and the hovered range
    /// alone, so two calls on the same input yield the same candidates.
    pub fn default_maybe_path_variants(&self) -> (r: Vec<MaybePathVariant>)
        requires
            self.wf(),
        ensures
            r@.map_values(|v: MaybePathVariant| v@) == default_tier_model(
                self.line@,
                self.hovered_word_range.start as int,
                self.hovered_word_range.end as int,
            ),
            forall|i: int| 0 <= i < r@.len() ==> (#[trigger] r@[i]).wf(self.line@.len()),
    {
        let line = self.line.as_slice();
        let hovered = self.hovered_word_range;
        let ghost s = self.line@;
        let ghost hs = hovered.start as int;
        let ghost he = hovered.end as int;
        let ghost fv = |v: MaybePathVariant| v@;
        let mut out: Vec<MaybePathVariant> = Vec::new();

        out.push(MaybePathVariant::new(line, hovered));
        proof {
            assert(out@.map_values(fv) =~= seq![variant_model_of(s, hs, he)]);
        }

        match longest_surrounding_symbols_match(line, hovered) {
            Some(sr) => {
                if sr.start != hovered.start || sr.end != hovered.end {
                    out.push(
                        MaybePathVariant::new(
                            line,
                            ByteRange { start: sr.start + 1, end: sr.end - 1 },
                        ),
                    );
                    proof {
                        assert(sr@ != (hs, he));
                        assert(out@.map_values(fv) =~= seq![variant_model_of(s, hs, he)]
                            + surrounding_part(s, hs, he));
                    }
                } else {
                    proof {
                        assert(sr@ == (hs, he));
                        assert(out@.map_values(fv) =~= seq![variant_model_of(s, hs, he)]
                            + surrounding_part(s, hs, he));
                    }
                }
            },
            None => {
                proof {
                    assert(out@.map_values(fv) =~= seq![variant_model_of(s, hs, he)]
                        + surrounding_part(s, hs, he));
                }
            },
        }
        let ghost head2 = seq![variant_model_of(s, hs, he)] + surrounding_part(s, hs, he);

        match preapproved_path_match(line) {
            Some(c) => {
                let overlap = (hovered.start <= c.start && c.start < hovered.end) || (hovered.start
                    <= c.end && c.end < hovered.end);
                if overlap {
                    out.push(MaybePathVariant::new(line, c));
                    proof {
                        assert(out@.map_values(fv) =~= head2 + preapproved_part(s, hs, he));
                    }
                } else {
                    proof {
                        assert(out@.map_values(fv) =~= head2 + preapproved_part(s, hs, he));
                    }
                }
            },
            None => {
                proof {
                    assert(out@.map_values(fv) =~= head2 + preapproved_part(s, hs, he));
                }
            },
        }
        let ghost head3 = head2 + preapproved_part(s, hs, he);

        let n = self.line.len();
        let ws = words_in(line, 0, hovered.end);
        let ghost wl = word_list(s, 0, he);
        proof {
            assert(wl.skip(0) =~= wl);
        }
        // The sweep is emitted in reverse: one prefix stripped first.
        if ws.len() >= 2 {
            out.push(MaybePathVariant::new(line, ByteRange { start: ws[1].start, end: n }));
            out.push(MaybePathVariant::new(line, ByteRange { start: ws[0].start, end: n }));
            proof {
                assert(wl.take(2)[0] == wl[0]);
                assert(wl.take(2)[1] == wl[1]);
                assert(line_ends_part(s, he, 0, 2).reverse() =~= seq![
                    variant_model_of(s, wl[1].0, s.len() as int),
                    variant_model_of(s, wl[0].0, s.len() as int),
                ]);
                assert(out@.map_values(fv) =~= head3 + line_ends_part(s, he, 0, 2).reverse());
            }
        } else if ws.len() == 1 {
            out.push(MaybePathVariant::new(line, ByteRange { start: ws[0].start, end: n }));
            proof {
                assert(line_ends_part(s, he, 0, 2).reverse() =~= seq![
                    variant_model_of(s, wl[0].0, s.len() as int),
                ]);
                assert(out@.map_values(fv) =~= head3 + line_ends_part(s, he, 0, 2).reverse());
            }
        } else {
            proof {
                assert(line_ends_part(s, he, 0, 2).reverse() =~= Seq::<VariantModel>::empty());
                assert(out@.map_values(fv) =~= head3 + line_ends_part(s, he, 0, 2).reverse());
            }
        }
        proof {
            assert(out@.map_values(fv) =~= default_tier_model(s, hs, he));
        }
        out
    }

    /// All advanced-tier maybe path variants: the first overlapping capture
    /// of the user's path regexes (whichever the regex engine yields), then
    /// the unbounded line-ends-in-a-path sweep past the default tier's words.
    pub fn advanced_maybe_path_variants(&self) -> (r: Vec<MaybePathVariant>)
        requires
            self.wf(),
        ensures
            exists|c: Option<(int, int)>|
                {
                    &&& match c {
                        Some(cap) => 0 <= cap.0 <= cap.1 <= self.line@.len() && overlaps_hover(
                            self.hovered_word_range.start as int,
                            self.hovered_word_range.end as int,
                            cap,
                        ),
                        None => true,
                    }
                    &&& r@.map_values(|v: MaybePathVariant| v@) == custom_part(self.line@, c)
                        + line_ends_rest(
                        self.line@,
                        self.hovered_word_range.end as int,
                        MAX_MAIN_THREAD_PREFIX_WORDS as int,
                    )
                },
            forall|i: int| 0 <= i < r@.len() ==> (#[trigger] r@[i]).wf(self.line@.len()),
    {
        let line = self.line.as_slice();
        let hovered = self.hovered_word_range;
        let ghost s = self.line@;
        let ghost hs = hovered.start as int;
        let ghost he = hovered.end as int;
        let ghost fv = |v: MaybePathVariant| v@;
        let mut out: Vec<MaybePathVariant> = Vec::new();

        let capture = path_regex_match(line, hovered, &self.path_hyperlink_regexes);
        match capture {
            Some(c) => {
                out.push(MaybePathVariant::new(line, c));
            },
            None => {},
        }
        proof {
            assert(out@.map_values(fv) =~= custom_part(s, view_opt(capture)));
        }
        let ghost head = custom_part(s, view_opt(capture));

        let n = self.line.len();
        let ws = words_in(line, 0, hovered.end);
        let ghost wl = word_list(s, 0, he);
        let mut i: usize = if ws.len() < MAX_MAIN_THREAD_PREFIX_WORDS {
            ws.len()
        } else {
            MAX_MAIN_THREAD_PREFIX_WORDS
        };
        let ghost start_i = i as int;
        let ghost head_len = head.len() as int;
        while i < ws.len()
            invariant
                start_i <= i as int <= ws@.len(),
                s == self.line@,
                line@ == s,
                n == self.line@.len(),
                he == hovered.end as int,
                hovered.end <= n,
                ws@.map_values(|br: ByteRange| br@) == wl,
                wl == word_list(s, 0, he),
                forall|k: int| 0 <= k < ws@.len() ==> (#[trigger] ws@[k]).wf_nonempty(
                    hovered.end as nat,
                ),
                head_len == head.len() as int,
                out@.len() == head_len + (i as int - start_i),
                forall|k: int| 0 <= k < head_len ==> (#[trigger] out@[k])@ == head[k],
                forall|k: int|
                    0 <= k < i as int - start_i ==> (#[trigger] out@[head_len + k])@
                        == variant_model_of(s, wl[start_i + k].0, s.len() as int),
                forall|k: int| 0 <= k < out@.len() ==> (#[trigger] out@[k]).wf(self.line@.len()),
            decreases ws@.len() - i,
        {
            proof {
                assert(ws@[i as int]@ == wl[i as int]);
                assert(ws@[i as int].wf_nonempty(hovered.end as nat));
            }
            out.push(MaybePathVariant::new(line, ByteRange { start: ws[i].start, end: n }));
            i = i + 1;
        }
        proof {
            assert(out@.map_values(|v: MaybePathVariant| v@) =~= custom_part(s, view_opt(capture))
                + line_ends_rest(s, he, MAX_MAIN_THREAD_PREFIX_WORDS as int)) by {
                let rhs = custom_part(s, view_opt(capture)) + line_ends_rest(
                    s,
                    he,
                    MAX_MAIN_THREAD_PREFIX_WORDS as int,
                );
                assert(out@.len() == rhs.len());
                assert forall|k: int| 0 <= k < out@.len() implies out@.map_values(
                    |v: MaybePathVariant| v@,
                )[k] == rhs[k] by {
                    if k >= head_len {
                        let k2 = k - head_len;
                        assert(wl.len() > start_i);
                        assert(start_i == MAX_MAIN_THREAD_PREFIX_WORDS as int);
                        assert(out@[head_len + k2]@ == variant_model_of(
                            s,
                            wl[start_i + k2].0,
                            s.len() as int,
                        ));
                        assert(wl.skip(start_i)[k2] == wl[start_i + k2]);
                    }
                }
            }
        }
        out
    }
}

/// The user-regex member of the advanced tier, for a given capture outcome.
pub open spec fn custom_part(s: Seq<u8>, c: Option<(int, int)>) -> Seq<VariantModel> {
    match c {
        Some(cap) => seq![variant_model_of(s, cap.0, cap.1)],
        None => Seq::<VariantModel>::empty(),
    }
}

/// One row of the exhaustive cross product: candidates from the word start
/// `a` to every word end at or after the hover, longest first.
pub open spec fn row_models(s: Seq<u8>, a: int, ends: Seq<(int, int)>) -> Seq<VariantModel> {
    ends.reverse().map_values(|w: (int, int)| variant_model_of(s, a, w.1))
}

/// All rows of the cross product, one per word start.
pub open spec fn concat_rows(
    s: Seq<u8>,
    starts: Seq<(int, int)>,
    ends: Seq<(int, int)>,
) -> Seq<VariantModel>
    decreases starts.len(),
{
    if starts.len() == 0 {
        Seq::empty()
    } else {
        row_models(s, starts[0].0, ends) + concat_rows(s, starts.drop_first(), ends)
    }
}

/// The complete exhaustive tier: every word start at or before the hover
/// crossed with every word end at or after it.
pub open spec fn exhaustive_model(s: Seq<u8>, hs: int, he: int) -> Seq<VariantModel> {
    concat_rows(s, word_list(s, 0, he), word_list(s, hs, s.len() as int))
}

/// When the hover is a maximal word run of the line, every word start in the
/// prefix sits at or before the hover's start, and every word end in the
/// suffix sits strictly after it.
pub proof fn lemma_exhaustive_word_bounds(s: Seq<u8>, hs: int, he: int)
    requires
        is_word_run(s, 0, s.len() as int, hs, he),
    ensures
        forall|i: int|
            0 <= i < word_list(s, 0, he).len() ==> 0 <= (#[trigger] word_list(s, 0, he)[i]).0
                <= hs,
        forall|j: int|
            0 <= j < word_list(s, hs, s.len() as int).len() ==> hs < (#[trigger] word_list(
                s,
                hs,
                s.len() as int,
            )[j]).1 <= s.len(),
{
    lemma_word_list_runs(s, 0, he);
    lemma_word_list_runs(s, hs, s.len() as int);
    assert forall|i: int|
        0 <= i < word_list(s, 0, he).len() implies 0 <= (#[trigger] word_list(s, 0, he)[i]).0
        <= hs by {
        let w = word_list(s, 0, he)[i];
        assert(is_word_run(s, 0, he, w.0, w.1));
        if w.0 > hs {
            // the byte before a run start is not a word byte, yet every byte
            // of the hovered run is
            assert(hs <= w.0 - 1 < he);
            assert(is_word_byte(s[w.0 - 1]));
        }
    }
}

impl MaybePath {
    /// All exhaustive-tier maybe path variants: for every word start at or
    /// before the hovered word and every word end at or after it, the
    /// candidate between them, ends iterated longest first. The hovered
    /// range must be the word the emulator delimited, a maximal word run of
    /// the line.
    pub fn exhaustive_maybe_path_variants(&self) -> (r: Vec<MaybePathVariant>)
        requires
            self.wf(),
            is_word_run(
                self.line@,
                0,
                self.line@.len() as int,
                self.hovered_word_range.start as int,
                self.hovered_word_range.end as int,
            ),
        ensures
            r@.map_values(|v: MaybePathVariant| v@) == exhaustive_model(
                self.line@,
                self.hovered_word_range.start as int,
                self.hovered_word_range.end as int,
            ),
            forall|i: int| 0 <= i < r@.len() ==> (#[trigger] r@[i]).wf(self.line@.len()),
    {
        let line = self.line.as_slice();
        let hovered = self.hovered_word_range;
        let n = self.line.len();
        let ghost s = self.line@;
        let ghost hs = hovered.start as int;
        let ghost he = hovered.end as int;
        proof {
            lemma_exhaustive_word_bounds(s, hs, he);
        }
        let starts = words_in(line, 0, hovered.end);
        let ends = words_in(line, hovered.start, n);
        let ghost sl = word_list(s, 0, he);
        let ghost el = word_list(s, hs, s.len() as int);
        proof {
            assert(sl.skip(0) =~= sl);
        }
        let mut out: Vec<MaybePathVariant> = Vec::new();
        let mut i: usize = 0;
        while i < starts.len()
            invariant
                0 <= i <= starts@.len(),
                s == self.line@,
                line@ == s,
                n == self.line@.len(),
                hs == hovered.start as int,
                he == hovered.end as int,
                hovered.start < hovered.end <= n,
                starts@.map_values(|br: ByteRange| br@) == sl,
                ends@.map_values(|br: ByteRange| br@) == el,
                forall|k: int| 0 <= k < sl.len() ==> 0 <= (#[trigger] sl[k]).0 <= hs,
                forall|k: int| 0 <= k < el.len() ==> hs < (#[trigger] el[k]).1 <= s.len(),
                out@.map_values(|v: MaybePathVariant| v@) + concat_rows(s, sl.skip(i as int), el)
                    == concat_rows(s, sl, el),
                forall|k: int| 0 <= k < out@.len() ==> (#[trigger] out@[k]).wf(self.line@.len()),
            decreases starts@.len() - i,
        {
            let a = starts[i].start;
            proof {
                assert(starts@[i as int]@ == sl[i as int]);
                assert(a as int == sl[i as int].0);
            }
            let mut row: Vec<MaybePathVariant> = Vec::new();
            let mut j: usize = ends.len();
            while j > 0
                invariant
                    0 <= j <= ends@.len(),
                    s == self.line@,
                    line@ == s,
                    n == self.line@.len(),
                    hs == hovered.start as int,
                    a as int <= hs,
                    ends@.map_values(|br: ByteRange| br@) == el,
                    forall|k: int| 0 <= k < el.len() ==> hs < (#[trigger] el[k]).1 <= s.len(),
                    row@.len() == el.len() - j,
                    forall|k: int|
                        0 <= k < row@.len() ==> (#[trigger] row@[k])@ == variant_model_of(
                            s,
                            a as int,
                            el[el.len() - 1 - k].1,
                        ),
                    forall|k: int| 0 <= k < row@.len() ==> (#[trigger] row@[k]).wf(
                        self.line@.len(),
                    ),
                decreases j,
            {
                j = j - 1;
                proof {
                    assert(ends@[j as int]@ == el[j as int]);
                }
                row.push(MaybePathVariant::new(line, ByteRange { start: a, end: ends[j].end }));
            }
            let ghost row_view = row@;
            let ghost out_pre = out@;
            out.append(&mut row);
            proof {
                assert(row_view.map_values(|v: MaybePathVariant| v@) =~= row_models(s, a as int, el)) by {
                    assert(row_view.map_values(|v: MaybePathVariant| v@).len() == row_models(s, a as int, el).len());
                    assert forall|k: int|
                        0 <= k < row_view.len() implies row_view.map_values(|v: MaybePathVariant| v@)[k] == row_models(
                        s,
                        a as int,
                        el,
                    )[k] by {
                        assert(el.reverse()[k] == el[el.len() - 1 - k]);
                    }
                }
                let rest = sl.skip(i as int);
                assert(rest[0] == sl[i as int]);
                assert(rest.drop_first() =~= sl.skip(i as int + 1));
                assert(concat_rows(s, rest, el) == row_models(s, a as int, el) + concat_rows(
                    s,
                    sl.skip(i as int + 1),
                    el,
                ));
                assert(out@.map_values(|v: MaybePathVariant| v@) =~= out_pre.map_values(|v: MaybePathVariant| v@) + row_view.map_values(|v: MaybePathVariant| v@));
                assert(out@.map_values(|v: MaybePathVariant| v@) + concat_rows(s, sl.skip(i as int + 1), el)
                    =~= out_pre.map_values(|v: MaybePathVariant| v@) + concat_rows(s, rest, el));
            }
            i = i + 1;
        }
        proof {
            assert(sl.skip(sl.len() as int) =~= Seq::<(int, int)>::empty());
            assert(out@.map_values(|v: MaybePathVariant| v@) =~= concat_rows(s, sl, el));
        }
        out
    }
}

/// Law: every base range the default tier yields on a well-formed hover (a
/// maximal word run of a line whose continuation bytes follow non-ASCII
/// bytes, as in valid UTF-8) is non-empty, lies inside the line, and is
/// aligned to scalar boundaries at both ends.
pub proof fn lemma_default_tier_bases(s: Seq<u8>, hs: int, he: int)
    requires
        crate::continuations_follow_nonascii(s),
        is_word_run(s, 0, s.len() as int, hs, he),
    ensures
        forall|i: int|
            0 <= i < default_tier_model(s, hs, he).len() ==> {
                let m = #[trigger] default_tier_model(s, hs, he)[i];
                &&& 0 <= m.base.0 < m.base.1 <= s.len()
                &&& is_utf8_boundary(s, m.base.0)
                &&& is_utf8_boundary(s, m.base.1)
            },
{
    let len = s.len() as int;
    lemma_run_endpoints_aligned(s, hs, he);
    // the surrounding interior
    crate::symbols::lemma_longest_surrounding_props(s, hs, he);
    match longest_surrounding(s, hs, he) {
        Some(sr) => {
            crate::variant::lemma_variant_base(s, sr.0 + 1, sr.1 - 1);
            crate::lemma_boundary_after_ascii(s, sr.0 + 1);
            crate::lemma_boundary_at_ascii(s, sr.1 - 1);
            if sr != (hs, he) {
                lemma_surrounding_interior_nonempty(s, hs, he, sr.0, sr.1 - 1);
            }
        },
        None => {},
    }
    // the preapproved capture
    crate::words::lemma_preapproved_props(s);
    match preapproved_capture(s) {
        Some(c) => {
            crate::variant::lemma_variant_base(s, c.0, c.1);
            if c.0 > 0 {
                crate::lemma_boundary_after_ascii(s, c.0);
            }
            crate::lemma_boundary_at_ascii(s, c.1);
        },
        None => {},
    }
    // the hovered word and the sweep words
    crate::variant::lemma_variant_base(s, hs, he);
    lemma_word_list_runs(s, 0, he);
    let wl = word_list(s, 0, he);
    let sur = surrounding_part(s, hs, he);
    let pre = preapproved_part(s, hs, he);
    let tail = line_ends_part(s, he, 0, 2).reverse();
    assert forall|k: int| 0 <= k < tail.len() implies {
        let m = #[trigger] tail[k];
        &&& 0 <= m.base.0 < m.base.1 <= s.len()
        &&& is_utf8_boundary(s, m.base.0)
        &&& is_utf8_boundary(s, m.base.1)
    } by {
        let part = line_ends_part(s, he, 0, 2);
        assert(tail[k] == part[part.len() - 1 - k]);
        let k2 = part.len() - 1 - k;
        let w = window(wl, 0, 2)[k2];
        assert(part[k2] == variant_model_of(s, w.0, len));
        crate::variant::lemma_variant_base(s, w.0, len);
        assert(window(wl, 0, 2)[k2] == wl[k2]);
        assert(is_word_run(s, 0, he, wl[k2].0, wl[k2].1));
        if w.0 > 0 {
            assert(!is_word_byte(s[w.0 - 1]));
            crate::lemma_boundary_after_ascii(s, w.0);
        }
    }
    let model = default_tier_model(s, hs, he);
    assert forall|i: int| 0 <= i < model.len() implies {
        let m = #[trigger] model[i];
        &&& 0 <= m.base.0 < m.base.1 <= s.len()
        &&& is_utf8_boundary(s, m.base.0)
        &&& is_utf8_boundary(s, m.base.1)
    } by {
        if i == 0 {
            assert(model[i] == variant_model_of(s, hs, he));
        } else if i < 1 + sur.len() {
            assert(model[i] == sur[i - 1]);
        } else if i < 1 + sur.len() + pre.len() {
            assert(model[i] == pre[i - 1 - sur.len()]);
        } else {
            assert(model[i] == tail[i - 1 - sur.len() - pre.len()]);
        }
    }
}

/// Law: every base range the exhaustive tier yields on a well-formed hover
/// is non-empty, lies inside the line, and is aligned to scalar boundaries.
pub proof fn lemma_exhaustive_tier_bases(s: Seq<u8>, hs: int, he: int)
    requires
        crate::continuations_follow_nonascii(s),
        is_word_run(s, 0, s.len() as int, hs, he),
    ensures
        forall|i: int|
            0 <= i < exhaustive_model(s, hs, he).len() ==> {
                let m = #[trigger] exhaustive_model(s, hs, he)[i];
                &&& 0 <= m.base.0 < m.base.1 <= s.len()
                &&& is_utf8_boundary(s, m.base.0)
                &&& is_utf8_boundary(s, m.base.1)
            },
{
    let starts = word_list(s, 0, he);
    let ends = word_list(s, hs, s.len() as int);
    lemma_exhaustive_word_bounds(s, hs, he);
    lemma_word_list_runs(s, 0, he);
    lemma_word_list_runs(s, hs, s.len() as int);
    assert forall|k: int|
        0 <= k < starts.len() implies 0 <= (#[trigger] starts[k]).0 <= hs && (starts[k].0 == 0
        || !is_word_byte(s[starts[k].0 - 1])) by {
        assert(is_word_run(s, 0, he, starts[k].0, starts[k].1));
    }
    assert forall|k: int|
        0 <= k < ends.len() implies hs < (#[trigger] ends[k]).1 <= s.len() && (ends[k].1
        == s.len() || !is_word_byte(s[ends[k].1])) by {
        assert(is_word_run(s, hs, s.len() as int, ends[k].0, ends[k].1));
    }
    lemma_concat_rows_bases(s, starts, ends, hs);
}

/// Induction over the rows of the exhaustive cross product.
proof fn lemma_concat_rows_bases(s: Seq<u8>, starts: Seq<(int, int)>, ends: Seq<(int, int)>, hs: int)
    requires
        crate::continuations_follow_nonascii(s),
        forall|k: int|
            0 <= k < starts.len() ==> 0 <= (#[trigger] starts[k]).0 <= hs && (starts[k].0 == 0
                || !is_word_byte(s[starts[k].0 - 1])),
        forall|k: int|
            0 <= k < ends.len() ==> hs < (#[trigger] ends[k]).1 <= s.len() && (ends[k].1
                == s.len() || !is_word_byte(s[ends[k].1])),
    ensures
        forall|i: int|
            0 <= i < concat_rows(s, starts, ends).len() ==> {
                let m = #[trigger] concat_rows(s, starts, ends)[i];
                &&& 0 <= m.base.0 < m.base.1 <= s.len()
                &&& is_utf8_boundary(s, m.base.0)
                &&& is_utf8_boundary(s, m.base.1)
            },
    decreases starts.len(),
{
    if starts.len() > 0 {
        let a = starts[0].0;
        let row = row_models(s, a, ends);
        assert forall|k: int| 0 <= k < row.len() implies {
            let m = #[trigger] row[k];
            &&& 0 <= m.base.0 < m.base.1 <= s.len()
            &&& is_utf8_boundary(s, m.base.0)
            &&& is_utf8_boundary(s, m.base.1)
        } by {
            assert(ends.reverse()[k] == ends[ends.len() - 1 - k]);
            let e = ends[ends.len() - 1 - k].1;
            assert(row[k] == variant_model_of(s, a, e));
            crate::variant::lemma_variant_base(s, a, e);
            if a > 0 {
                crate::lemma_boundary_after_ascii(s, a);
            }
            if e < s.len() {
                crate::lemma_boundary_at_ascii(s, e);
            }
        }
        assert(starts.drop_first().len() == starts.len() - 1);
        assert forall|k: int|
            0 <= k < starts.drop_first().len() implies 0 <= (#[trigger] starts.drop_first()[k]).0
            <= hs && (starts.drop_first()[k].0 == 0 || !is_word_byte(
            s[starts.drop_first()[k].0 - 1],
        )) by {
            assert(starts.drop_first()[k] == starts[k + 1]);
        }
        lemma_concat_rows_bases(s, starts.drop_first(), ends, hs);
        assert forall|i: int| 0 <= i < concat_rows(s, starts, ends).len() implies {
            let m = #[trigger] concat_rows(s, starts, ends)[i];
            &&& 0 <= m.base.0 < m.base.1 <= s.len()
            &&& is_utf8_boundary(s, m.base.0)
            &&& is_utf8_boundary(s, m.base.1)
        } by {
            if i < row.len() {
                assert(concat_rows(s, starts, ends)[i] == row[i]);
            } else {
                assert(concat_rows(s, starts, ends)[i] == concat_rows(
                    s,
                    starts.drop_first(),
                    ends,
                )[i - row.len()]);
            }
        }
    }
}

/// A maximal word run's endpoints are scalar boundaries: word runs never
/// split a multi-byte scalar, whose continuation bytes are all word bytes.
proof fn lemma_run_endpoints_aligned(s: Seq<u8>, a: int, b: int)
    requires
        crate::continuations_follow_nonascii(s),
        is_word_run(s, 0, s.len() as int, a, b),
    ensures
        is_utf8_boundary(s, a),
        is_utf8_boundary(s, b),
{
    if a > 0 {
        assert(!is_word_byte(s[a - 1]));
        assert(s[a - 1] < 128);
        crate::lemma_boundary_after_ascii(s, a);
    }
    if b < s.len() {
        assert(!is_word_byte(s[b]));
    }
}

/// The interior of a surrounding-symbol span that covers a whole hovered
/// word run and differs from it is never empty: an adjacent pair would
/// either sit inside the word (quotes cannot, brackets would extend it) or
/// coincide with it.
proof fn lemma_surrounding_interior_nonempty(s: Seq<u8>, hs: int, he: int, f: int, l: int)
    requires
        is_word_run(s, 0, s.len() as int, hs, he),
        0 <= f < l < s.len(),
        f <= hs <= l,
        f <= he - 1 <= l,
        crate::symbols::is_symbol_pair(s[f], s[l]),
        (f, l + 1) != (hs, he),
    ensures
        l > f + 1,
{
    if l == f + 1 {
        if hs == f && he == f + 2 {
            assert((f, l + 1) == (hs, he));
        } else if hs == f && he == f + 1 {
            assert(is_word_byte(s[f]));
            assert(s[f] == 91 || s[f] == 40);
            assert(is_word_byte(s[f + 1]));
            assert(he == s.len() || !is_word_byte(s[he]));
        } else {
            assert(hs == f + 1 && he == f + 2);
            assert(is_word_byte(s[f + 1]));
            assert(s[f + 1] == 93 || s[f + 1] == 41);
            assert(is_word_byte(s[f]));
            assert(hs == 0 || !is_word_byte(s[hs - 1]));
        }
    }
}

} // verus!
