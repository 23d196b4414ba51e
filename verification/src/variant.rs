//! The variation set for one candidate sub-range of the line: the range
//! itself, a symbol-stripped interior, a git-diff-stripped range, and at most
//! one positioned variation carrying a parsed row/column suffix.

use vstd::prelude::*;

use crate::ByteRange;
use crate::is_utf8_boundary;
use crate::continuations_follow_nonascii;
use crate::lemma_boundary_after_ascii;
use crate::lemma_boundary_at_ascii;
use crate::symbols::is_symbol_pair;
use crate::row_column::RowColumn;
use crate::row_column::SuffixInfo;
use crate::row_column::parse_suffix;
use crate::row_column::parse_row_column;
use crate::row_column::lemma_parse_suffix_props;

verus! {

/// A contiguous candidate range of a line together with its sub-range
/// variations, ordered longest to shortest except that a symbol-stripped
/// interior is ranked before the original, and at most one positioned
/// variation. `absolutize_home_dir` is false exactly when a git-diff prefix
/// (`a/` or `b/`) was recognized: `a/~/x` is then never home-expanded.
#[derive(Clone, Debug)]
pub struct MaybePathVariant {
    pub base: ByteRange,
    pub variations: Vec<ByteRange>,
    pub positioned_variation: Option<(ByteRange, RowColumn)>,
    pub absolutize_home_dir: bool,
}

/// Mathematical shape of a `MaybePathVariant`.
pub ghost struct VariantModel {
    pub base: (int, int),
    pub variations: Seq<(int, int)>,
    pub positioned: Option<((int, int), RowColumn)>,
    pub absolutize_home_dir: bool,
}

impl View for MaybePathVariant {
    type V = VariantModel;

    open spec fn view(&self) -> VariantModel {
        VariantModel {
            base: self.base@,
            variations: self.variations@.map_values(|r: ByteRange| r@),
            positioned: match self.positioned_variation {
                Some((r, rc)) => Some((r@, rc)),
                None => None,
            },
            absolutize_home_dir: self.absolutize_home_dir,
        }
    }
}

/// The candidate `s[a..b)` is wide enough and begins and ends with a matching
/// pair of common surrounding symbols.
pub open spec fn symbol_stripped(s: Seq<u8>, a: int, b: int) -> bool {
    b - a > 2 && is_symbol_pair(s[a], s[b - 1])
}

/// The candidate after symbol stripping, if any.
pub open spec fn stripped_range(s: Seq<u8>, a: int, b: int) -> (int, int) {
    if symbol_stripped(s, a, b) {
        (a + 1, b - 1)
    } else {
        (a, b)
    }
}

/// The candidate `s[a..b)` carries a git-diff prefix: it was not symbol
/// stripped, starts with `a` or `b`, and continues with a separator.
pub open spec fn git_diff_prefix(s: Seq<u8>, a: int, b: int) -> bool {
    &&& b - a > 2
    &&& !symbol_stripped(s, a, b)
    &&& s[a] == 97 || s[a] == 98
    &&& s[a + 1] == 47 || s[a + 1] == 92
}

/// The row/column suffix parsed on the candidate after symbol stripping (and
/// never on the git-diff-stripped form, which git never emits positions for).
pub open spec fn positioned_of(s: Seq<u8>, a: int, b: int) -> Option<((int, int), RowColumn)> {
    let sr = stripped_range(s, a, b);
    if b - a > 2 {
        match parse_suffix(s.subrange(sr.0, sr.1)) {
            Some(info) => Some(((sr.0, sr.1 - info.suffix_len), rc_of(info))),
            None => None,
        }
    } else {
        None
    }
}

/// The parsed suffix as the executable `RowColumn` value.
pub open spec fn rc_of(info: SuffixInfo) -> RowColumn {
    RowColumn {
        row: info.row as u32,
        column: match info.column {
            Some(c) => Some(c as u32),
            None => None,
        },
        suffix_length: info.suffix_len as usize,
    }
}

/// The complete mathematical description of the variant built on `s[a..b)`.
/// Opaque: callers see which ranges a variant covers through the lemmas
/// below and the constructor's contract, not by unfolding this definition.
#[verifier::opaque]
pub open spec fn variant_model_of(s: Seq<u8>, a: int, b: int) -> VariantModel {
    let sr = stripped_range(s, a, b);
    let head = if symbol_stripped(s, a, b) {
        seq![sr, (a, b)]
    } else {
        seq![(a, b)]
    };
    let vars = if git_diff_prefix(s, a, b) {
        head.push((a + 2, b))
    } else {
        head
    };
    VariantModel {
        base: (a, b),
        variations: vars,
        positioned: positioned_of(s, a, b),
        absolutize_home_dir: !git_diff_prefix(s, a, b),
    }
}

impl MaybePathVariant {
    /// Every stored range lies inside a line of `len` bytes.
    pub open spec fn wf(self, len: nat) -> bool {
        &&& self.base.wf(len)
        &&& self.variations@.len() >= 1
        &&& forall|i: int|
            0 <= i < self.variations@.len() ==> (#[trigger] self.variations@[i]).wf(len)
        &&& match self.positioned_variation {
            Some((r, rc)) => r.wf(len) && r.end + rc.suffix_length <= len,
            None => true,
        }
    }

    /// The base range this variant was built on.
    pub fn base_range(&self) -> (r: ByteRange)
        ensures
            r@ == self@.base,
    {
        self.base
    }

    /// Builds the variation set for the candidate `line[base.start..base.end)`.
    pub fn new(line: &[u8], base: ByteRange) -> (r: MaybePathVariant)
        requires
            base.wf(line@.len()),
        ensures
            r@ == variant_model_of(line@, base.start as int, base.end as int),
            r.wf(line@.len()),
    {
        let ghost s = line@;
        let ghost ia = base.start as int;
        let ghost ib = base.end as int;
        let a = base.start;
        let b = base.end;
        let mut variations: Vec<ByteRange> = Vec::new();
        let mut positioned: Option<(ByteRange, RowColumn)> = None;
        let mut home = true;
        let mut stripped = false;
        let mut sa = a;
        let mut sb = b;
        if b - a > 2 {
            let open = line[a];
            let close = line[b - 1];
            if (open == 34 && close == 34) || (open == 39 && close == 39) || (open == 91 && close
                == 93) || (open == 40 && close == 41) {
                stripped = true;
                sa = a + 1;
                sb = b - 1;
                variations.push(ByteRange { start: sa, end: sb });
                variations.push(base);
            } else {
                variations.push(base);
                if (line[a] == 97 || line[a] == 98) && (line[a + 1] == 47 || line[a + 1] == 92) {
                    home = false;
                    variations.push(ByteRange { start: a + 2, end: b });
                }
            }
            proof {
                assert(stripped == symbol_stripped(s, ia, ib));
                assert(!home == git_diff_prefix(s, ia, ib));
                assert((sa as int, sb as int) == stripped_range(s, ia, ib));
                lemma_parse_suffix_props(s.subrange(sa as int, sb as int));
            }
            match parse_row_column(line, sa, sb) {
                Some((path_end, rc)) => {
                    positioned = Some((ByteRange { start: sa, end: path_end }, rc));
                },
                None => {},
            }
        } else {
            variations.push(base);
        }
        let r = MaybePathVariant {
            base,
            variations,
            positioned_variation: positioned,
            absolutize_home_dir: home,
        };
        proof {
            reveal(variant_model_of);
            let m = variant_model_of(s, ia, ib);
            assert(r@.variations =~= m.variations);
            match r@.positioned {
                Some((pr, rc)) => {
                    assert(m.positioned is Some);
                    assert(rc == m.positioned->Some_0.1);
                    assert(pr == m.positioned->Some_0.0);
                },
                None => {
                    assert(m.positioned is None);
                },
            }
            assert(r@ == m);
        }
        r
    }
}

/// The variant's base range is exactly the range it was built on.
pub proof fn lemma_variant_base(s: Seq<u8>, a: int, b: int)
    ensures
        variant_model_of(s, a, b).base == (a, b),
{
    reveal(variant_model_of);
}

/// Law: the variations list always begins with the symbol-stripped interior
/// when one was recognized and with the base range otherwise, and every
/// listed variation is a non-empty subrange of the base range.
pub proof fn lemma_variations_shape(s: Seq<u8>, a: int, b: int)
    requires
        0 <= a < b <= s.len(),
    ensures
        variant_model_of(s, a, b).variations.len() >= 1,
        variant_model_of(s, a, b).variations[0] == stripped_range(s, a, b),
        forall|i: int|
            0 <= i < variant_model_of(s, a, b).variations.len() ==> {
                let v = #[trigger] variant_model_of(s, a, b).variations[i];
                a <= v.0 < v.1 <= b
            },
{
    reveal(variant_model_of);
}

/// Law: at most one positioned variation exists (it is an `Option`), and when
/// present its range starts at the symbol-stripped start and its end plus the
/// suffix length lands exactly on the symbol-stripped end of the base range.
pub proof fn lemma_positioned_shape(s: Seq<u8>, a: int, b: int)
    requires
        0 <= a <= b <= s.len(),
        s.len() <= usize::MAX,
    ensures
        match variant_model_of(s, a, b).positioned {
            Some((r, rc)) => {
                &&& r.0 == stripped_range(s, a, b).0
                &&& r.0 < r.1
                &&& rc.suffix_length > 0
                &&& r.1 + rc.suffix_length == stripped_range(s, a, b).1
            },
            None => true,
        },
{
    reveal(variant_model_of);
    let sr = stripped_range(s, a, b);
    if b - a > 2 {
        lemma_parse_suffix_props(s.subrange(sr.0, sr.1));
    }
}

/// Law: home-directory absolutization is disabled if and only if a git-diff
/// prefix was recognized and stripped.
pub proof fn lemma_home_dir_iff_git(s: Seq<u8>, a: int, b: int)
    ensures
        !variant_model_of(s, a, b).absolutize_home_dir <==> git_diff_prefix(s, a, b),
{
    reveal(variant_model_of);
}

/// Law: on a line whose continuation bytes each follow a non-ASCII byte (as
/// in every valid UTF-8 string), a variant built on an aligned base range has
/// every variation and the positioned range aligned to scalar boundaries.
pub proof fn lemma_variant_ranges_aligned(s: Seq<u8>, a: int, b: int)
    requires
        continuations_follow_nonascii(s),
        0 <= a < b <= s.len(),
        is_utf8_boundary(s, a),
        is_utf8_boundary(s, b),
    ensures
        forall|i: int|
            0 <= i < variant_model_of(s, a, b).variations.len() ==> {
                let v = #[trigger] variant_model_of(s, a, b).variations[i];
                is_utf8_boundary(s, v.0) && is_utf8_boundary(s, v.1)
            },
        match variant_model_of(s, a, b).positioned {
            Some((r, rc)) => is_utf8_boundary(s, r.0) && is_utf8_boundary(s, r.1),
            None => true,
        },
{
    reveal(variant_model_of);
    let m = variant_model_of(s, a, b);
    let sr = stripped_range(s, a, b);
    if symbol_stripped(s, a, b) {
        lemma_boundary_after_ascii(s, a + 1);
        lemma_boundary_at_ascii(s, b - 1);
    }
    if git_diff_prefix(s, a, b) {
        lemma_boundary_after_ascii(s, a + 2);
    }
    match m.positioned {
        Some((r, rc)) => {
            lemma_parse_suffix_props(s.subrange(sr.0, sr.1));
            let info = parse_suffix(s.subrange(sr.0, sr.1))->Some_0;
            assert(s.subrange(sr.0, sr.1)[info.path_len] == s[sr.0 + info.path_len]);
            lemma_boundary_at_ascii(s, r.1);
        },
        None => {},
    }
}

} // verus!
