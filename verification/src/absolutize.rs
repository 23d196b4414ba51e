//! Turning variations into concrete path candidates: projecting relative
//! variations (optionally stripping a worktree prefix), and absolutizing by
//! prefixing roots and expanding a leading `~`.
//!
//! Both `/` and `\` are treated as separators, whatever the host platform; a
//! candidate is absolute when it starts with a separator.

use vstd::prelude::*;

use crate::ByteRange;
use crate::copy_range;
use crate::row_column::RowColumn;
use crate::variant::MaybePathVariant;
use crate::variant::VariantModel;
use crate::path_position::MaybePathWithPosition;
use crate::path_position::PathPositionModel;

verus! {

/// Path separator byte: `/` or `\`.
pub open spec fn is_sep(b: u8) -> bool {
    b == 47 || b == 92
}

fn sep_byte(b: u8) -> (r: bool)
    ensures
        r == is_sep(b),
{
    b == 47 || b == 92
}

/// A candidate is absolute when it starts with a separator.
pub open spec fn is_absolute_path(p: Seq<u8>) -> bool {
    p.len() > 0 && is_sep(p[0])
}

/// `root` joined with the relative path `rel`: a separator is inserted unless
/// `root` already ends with one.
pub open spec fn joined(root: Seq<u8>, rel: Seq<u8>) -> Seq<u8> {
    if root.len() > 0 && is_sep(root.last()) {
        root + rel
    } else {
        root + seq![47u8] + rel
    }
}

/// First position at or after `i` in `p` that does not hold a separator.
pub open spec fn skip_seps(p: Seq<u8>, i: int) -> int
    decreases p.len() - i,
{
    if 0 <= i < p.len() && is_sep(p[i]) {
        skip_seps(p, i + 1)
    } else {
        i
    }
}

/// Component-wise prefix strip: `pre` must match the start of `p` and either
/// exhaust it or stop at a separator; the remainder follows any separators.
/// An empty prefix matches everything.
pub open spec fn strip_prefix_spec(p: Seq<u8>, pre: Seq<u8>) -> Option<Seq<u8>> {
    if pre.len() == 0 {
        Some(p)
    } else if p.len() < pre.len() || p.subrange(0, pre.len() as int) != pre {
        None
    } else if p.len() == pre.len() {
        Some(Seq::<u8>::empty())
    } else if is_sep(pre.last()) || is_sep(p[pre.len() as int]) {
        Some(p.skip(skip_seps(p, pre.len() as int)))
    } else {
        None
    }
}

/// `root` joined with `rel`, as a fresh vector.
fn join_vec(root: &Vec<u8>, rel: &Vec<u8>) -> (r: Vec<u8>)
    ensures
        r@ == joined(root@, rel@),
{
    let mut out: Vec<u8> = Vec::new();
    let mut i: usize = 0;
    while i < root.len()
        invariant
            0 <= i <= root@.len(),
            out@ == root@.subrange(0, i as int),
        decreases root@.len() - i,
    {
        out.push(root[i]);
        proof {
            assert(out@ =~= root@.subrange(0, i as int + 1));
        }
        i = i + 1;
    }
    proof {
        assert(out@ =~= root@);
    }
    if root.len() == 0 || !sep_byte(root[root.len() - 1]) {
        out.push(47);
    }
    let mut j: usize = 0;
    let ghost mid = out@;
    while j < rel.len()
        invariant
            0 <= j <= rel@.len(),
            out@ == mid + rel@.subrange(0, j as int),
        decreases rel@.len() - j,
    {
        out.push(rel[j]);
        proof {
            assert(out@ =~= mid + rel@.subrange(0, j as int + 1));
        }
        j = j + 1;
    }
    proof {
        assert(rel@.subrange(0, rel@.len() as int) =~= rel@);
        assert(out@ =~= joined(root@, rel@));
    }
    out
}

/// Strips `pre` from the start of `text` component-wise, if it matches.
fn try_strip(text: &Vec<u8>, pre: &Vec<u8>) -> (r: Option<Vec<u8>>)
    ensures
        match r {
            Some(rest) => strip_prefix_spec(text@, pre@) == Some(rest@),
            None => strip_prefix_spec(text@, pre@) is None,
        },
{
    let np = pre.len();
    let nt = text.len();
    if np == 0 {
        let mut whole: Vec<u8> = Vec::new();
        let mut i: usize = 0;
        while i < nt
            invariant
                0 <= i <= nt == text@.len(),
                whole@ == text@.subrange(0, i as int),
            decreases nt - i,
        {
            whole.push(text[i]);
            proof {
                assert(whole@ =~= text@.subrange(0, i as int + 1));
            }
            i = i + 1;
        }
        proof {
            assert(whole@ =~= text@);
        }
        return Some(whole);
    }
    if nt < np {
        return None;
    }
    let mut k: usize = 0;
    while k < np
        invariant
            0 <= k <= np <= nt,
            np == pre@.len(),
            nt == text@.len(),
            forall|q: int| 0 <= q < k ==> text@[q] == pre@[q],
        decreases np - k,
    {
        if text[k] != pre[k] {
            proof {
                assert(text@.subrange(0, np as int)[k as int] != pre@[k as int]);
            }
            return None;
        }
        k = k + 1;
    }
    proof {
        assert(text@.subrange(0, np as int) =~= pre@);
    }
    if nt == np {
        return Some(Vec::new());
    }
    if sep_byte(pre[np - 1]) || sep_byte(text[np]) {
        let mut j: usize = np;
        while j < nt && sep_byte(text[j])
            invariant
                np <= j <= nt == text@.len(),
                skip_seps(text@, np as int) == skip_seps(text@, j as int),
            decreases nt - j,
        {
            j = j + 1;
        }
        proof {
            assert(skip_seps(text@, j as int) == j as int);
        }
        let mut rest: Vec<u8> = Vec::new();
        let mut i: usize = j;
        while i < nt
            invariant
                j <= i <= nt == text@.len(),
                rest@ == text@.subrange(j as int, i as int),
            decreases nt - i,
        {
            rest.push(text[i]);
            proof {
                assert(rest@ =~= text@.subrange(j as int, i as int + 1));
            }
            i = i + 1;
        }
        proof {
            assert(rest@ =~= text@.skip(j as int));
        }
        return Some(rest);
    }
    None
}

/// The worktree-stripped form of `text`, or `text` itself when the prefix
/// does not match or none was given.
pub open spec fn stripped_or(text: Seq<u8>, prefix: Option<Seq<u8>>) -> Seq<u8> {
    match prefix {
        None => text,
        Some(p) => match strip_prefix_spec(text, p) {
            Some(rest) => rest,
            None => text,
        },
    }
}

/// The ordered list the relative projection and the absolutizer walk: the
/// positioned variation first (it is the most likely open target), then every
/// plain variation.
pub open spec fn with_position_list(m: VariantModel) -> Seq<((int, int), Option<RowColumn>)> {
    (match m.positioned {
        Some((r, rc)) => seq![(r, Some(rc))],
        None => Seq::<((int, int), Option<RowColumn>)>::empty(),
    }) + m.variations.map_values(|r: (int, int)| (r, Option::<RowColumn>::None))
}

/// One entry of the relative projection: kept (with the prefix stripped) when
/// the variation text is relative, dropped when it is absolute.
pub open spec fn keep_relative(
    s: Seq<u8>,
    prefix: Option<Seq<u8>>,
    e: ((int, int), Option<RowColumn>),
) -> Option<PathPositionModel> {
    let text = s.subrange(e.0.0, e.0.1);
    if !is_absolute_path(text) {
        Some(PathPositionModel { path: stripped_or(text, prefix), position: e.1, range: e.0 })
    } else {
        None
    }
}

/// The relative projection of a whole variant.
pub open spec fn relative_model(
    s: Seq<u8>,
    m: VariantModel,
    prefix: Option<Seq<u8>>,
) -> Seq<PathPositionModel> {
    with_position_list(m).filter_map(|e: ((int, int), Option<RowColumn>)| keep_relative(s, prefix, e))
}

/// The root-joined candidates for one variation.
pub open spec fn roots_part(
    text: Seq<u8>,
    range: (int, int),
    position: Option<RowColumn>,
    roots: Seq<Seq<u8>>,
) -> Seq<PathPositionModel> {
    roots.map_values(
        |root: Seq<u8>| PathPositionModel { path: joined(root, text), position, range },
    )
}

/// The home-expanded candidate for one variation: present only when home
/// expansion is allowed for this variant, a home directory is known, and the
/// text starts with a `~` component.
pub open spec fn home_part(
    text: Seq<u8>,
    range: (int, int),
    position: Option<RowColumn>,
    home: Option<Seq<u8>>,
    allowed: bool,
) -> Seq<PathPositionModel> {
    if allowed {
        match home {
            Some(h) => match strip_prefix_spec(text, seq![126u8]) {
                Some(tail) => seq![
                    PathPositionModel { path: joined(h, tail), position, range },
                ],
                None => Seq::<PathPositionModel>::empty(),
            },
            None => Seq::<PathPositionModel>::empty(),
        }
    } else {
        Seq::<PathPositionModel>::empty()
    }
}

/// Everything the absolutizer yields for one variation: the text itself when
/// it is already absolute, else each root joined with it, then the home
/// expansion.
pub open spec fn absolutize_model(
    s: Seq<u8>,
    range: (int, int),
    position: Option<RowColumn>,
    roots: Seq<Seq<u8>>,
    home: Option<Seq<u8>>,
    allowed: bool,
) -> Seq<PathPositionModel> {
    let text = s.subrange(range.0, range.1);
    if is_absolute_path(text) {
        seq![PathPositionModel { path: text, position, range }]
    } else {
        roots_part(text, range, position, roots) + home_part(text, range, position, home, allowed)
    }
}

/// The absolutizer's output over the whole entry list of a variant.
pub open spec fn absolutized_model(
    s: Seq<u8>,
    m: VariantModel,
    roots: Seq<Seq<u8>>,
    home: Option<Seq<u8>>,
) -> Seq<PathPositionModel> {
    concat_absolutized(s, plain_then_positioned(m), roots, home, m.absolutize_home_dir)
}

/// The absolutizer's walk order: every plain variation first, the positioned
/// variation last.
pub open spec fn plain_then_positioned(m: VariantModel) -> Seq<((int, int), Option<RowColumn>)> {
    m.variations.map_values(|r: (int, int)| (r, Option::<RowColumn>::None)) + (match m.positioned {
        Some((r, rc)) => seq![(r, Some(rc))],
        None => Seq::<((int, int), Option<RowColumn>)>::empty(),
    })
}

/// Concatenation of the absolutizer's output over a list of entries.
pub open spec fn concat_absolutized(
    s: Seq<u8>,
    entries: Seq<((int, int), Option<RowColumn>)>,
    roots: Seq<Seq<u8>>,
    home: Option<Seq<u8>>,
    allowed: bool,
) -> Seq<PathPositionModel>
    decreases entries.len(),
{
    if entries.len() == 0 {
        Seq::empty()
    } else {
        absolutize_model(s, entries[0].0, entries[0].1, roots, home, allowed)
            + concat_absolutized(s, entries.drop_first(), roots, home, allowed)
    }
}

/// Views of a list of roots.
pub open spec fn roots_view(roots: Seq<Vec<u8>>) -> Seq<Seq<u8>> {
    roots.map_values(|r: Vec<u8>| r@)
}

/// View of an optional borrowed path.
pub open spec fn opt_view(p: Option<&Vec<u8>>) -> Option<Seq<u8>> {
    match p {
        Some(v) => Some(v@),
        None => None,
    }
}

/// Every entry range of the walk orders lies inside the line when the
/// variant does.
pub proof fn lemma_entry_ranges_wf(v: MaybePathVariant, len: nat)
    requires
        v.wf(len),
    ensures
        forall|k: int|
            0 <= k < with_position_list(v@).len() ==> {
                let e = #[trigger] with_position_list(v@)[k];
                0 <= e.0.0 <= e.0.1 <= len
            },
        forall|k: int|
            0 <= k < plain_then_positioned(v@).len() ==> {
                let e = #[trigger] plain_then_positioned(v@)[k];
                0 <= e.0.0 <= e.0.1 <= len
            },
{
    let m = v@;
    let head_len: int = match m.positioned {
        Some(_) => 1,
        None => 0,
    };
    assert forall|k: int| 0 <= k < with_position_list(m).len() implies {
        let e = #[trigger] with_position_list(m)[k];
        0 <= e.0.0 <= e.0.1 <= len
    } by {
        if k >= head_len {
            assert(with_position_list(m)[k] == (m.variations[k - head_len],
                Option::<RowColumn>::None));
            assert(v.variations@[k - head_len].wf(len));
        }
    }
    let nv = m.variations.len() as int;
    assert forall|k: int| 0 <= k < plain_then_positioned(m).len() implies {
        let e = #[trigger] plain_then_positioned(m)[k];
        0 <= e.0.0 <= e.0.1 <= len
    } by {
        if k < nv {
            assert(plain_then_positioned(m)[k] == (m.variations[k], Option::<RowColumn>::None));
            assert(v.variations@[k].wf(len));
        }
    }
}

impl MaybePathVariant {
    /// Builds the executable entry list `(range, position)` in the relative
    /// projection's order: positioned first, then every variation.
    fn entries_positioned_first(&self) -> (r: Vec<(ByteRange, Option<RowColumn>)>)
        ensures
            r@.map_values(|e: (ByteRange, Option<RowColumn>)| (e.0@, e.1)) == with_position_list(
                self@,
            ),
    {
        let mut items: Vec<(ByteRange, Option<RowColumn>)> = Vec::new();
        match &self.positioned_variation {
            Some((r, rc)) => {
                items.push((*r, Some(*rc)));
            },
            None => {},
        }
        let ghost head = items@;
        let mut i: usize = 0;
        while i < self.variations.len()
            invariant
                0 <= i <= self.variations@.len(),
                items@ == head + self.variations@.subrange(0, i as int).map_values(
                    |br: ByteRange| (br, Option::<RowColumn>::None),
                ),
            decreases self.variations@.len() - i,
        {
            items.push((self.variations[i], None));
            proof {
                assert(items@ =~= head + self.variations@.subrange(0, i as int + 1).map_values(
                    |br: ByteRange| (br, Option::<RowColumn>::None),
                ));
            }
            i = i + 1;
        }
        proof {
            assert(self.variations@.subrange(0, self.variations@.len() as int) =~= self.variations@);
            assert(items@.map_values(|e: (ByteRange, Option<RowColumn>)| (e.0@, e.1))
                =~= with_position_list(self@));
        }
        items
    }

    /// Projects the variant to its relative variations, positioned first,
    /// stripping the given worktree prefix where it matches. Absolute
    /// variations are dropped: they are handled by the absolutizer.
    pub fn relative_variations(
        &self,
        line: &[u8],
        prefix_to_strip: Option<&Vec<u8>>,
    ) -> (r: Vec<MaybePathWithPosition>)
        requires
            self.wf(line@.len()),
        ensures
            r@.map_values(|p: MaybePathWithPosition| p@) == relative_model(
                line@,
                self@,
                opt_view(prefix_to_strip),
            ),
    {
        let ghost s = line@;
        let ghost f = |e: ((int, int), Option<RowColumn>)|
            keep_relative(s, opt_view(prefix_to_strip), e);
        let items = self.entries_positioned_first();
        let ghost ilist = with_position_list(self@);
        proof {
            lemma_entry_ranges_wf(*self, line@.len());
        }
        let mut out: Vec<MaybePathWithPosition> = Vec::new();
        let mut i: usize = 0;
        while i < items.len()
            invariant
                0 <= i <= items@.len(),
                s == line@,
                self.wf(line@.len()),
                items@.map_values(|e: (ByteRange, Option<RowColumn>)| (e.0@, e.1)) == ilist,
                ilist == with_position_list(self@),
                f == (|e: ((int, int), Option<RowColumn>)|
                    keep_relative(s, opt_view(prefix_to_strip), e)),
                forall|k: int|
                    0 <= k < ilist.len() ==> {
                        let e = #[trigger] ilist[k];
                        0 <= e.0.0 <= e.0.1 <= line@.len()
                    },
                out@.map_values(|p: MaybePathWithPosition| p@) == ilist.take(i as int).filter_map(f),
            decreases items@.len() - i,
        {
            let (range, position) = items[i];
            proof {
                assert(items@.map_values(|e: (ByteRange, Option<RowColumn>)| (e.0@, e.1))[i as int]
                    == (range@, position));
                assert(ilist[i as int] == (range@, position));
                assert(range.wf(line@.len()));
            }
            let is_abs = range.start < range.end && sep_byte(line[range.start]);
            proof {
                assert(s.subrange(range.start as int, range.end as int).len() == range.end
                    - range.start);
                if range.start < range.end {
                    assert(s.subrange(range.start as int, range.end as int)[0]
                        == s[range.start as int]);
                }
                assert(is_abs == is_absolute_path(s.subrange(range.start as int, range.end as int)));
            }
            if !is_abs {
                let text = copy_range(line, range.start, range.end);
                let path = match prefix_to_strip {
                    None => text,
                    Some(p) => match try_strip(&text, p) {
                        Some(rest) => rest,
                        None => text,
                    },
                };
                out.push(MaybePathWithPosition { path, position, range });
            }
            proof {
                let u = ilist.take(i as int + 1);
                assert(u.drop_last() =~= ilist.take(i as int));
                assert(u.last() == ilist[i as int]);
                assert(out@.map_values(|p: MaybePathWithPosition| p@) =~= ilist.take(
                    i as int + 1,
                ).filter_map(f));
            }
            i = i + 1;
        }
        proof {
            assert(ilist.take(ilist.len() as int) =~= ilist);
        }
        out
    }

    /// Absolutizes one variation: yields it unchanged when already absolute,
    /// else joined to each root in order, then home-expanded when allowed.
    fn absolutize(
        &self,
        line: &[u8],
        roots: &Vec<Vec<u8>>,
        home_dir: Option<&Vec<u8>>,
        variation_range: ByteRange,
        position: Option<RowColumn>,
    ) -> (r: Vec<MaybePathWithPosition>)
        requires
            variation_range.wf(line@.len()),
        ensures
            r@.map_values(|p: MaybePathWithPosition| p@) == absolutize_model(
                line@,
                variation_range@,
                position,
                roots_view(roots@),
                opt_view(home_dir),
                self.absolutize_home_dir,
            ),
    {
        let ghost s = line@;
        let ghost text_s = s.subrange(variation_range.start as int, variation_range.end as int);
        let text = copy_range(line, variation_range.start, variation_range.end);
        let mut out: Vec<MaybePathWithPosition> = Vec::new();
        if text.len() > 0 && sep_byte(text[0]) {
            out.push(MaybePathWithPosition { path: text, position, range: variation_range });
            proof {
                assert(out@.map_values(|p: MaybePathWithPosition| p@) =~= absolutize_model(
                    s,
                    variation_range@,
                    position,
                    roots_view(roots@),
                    opt_view(home_dir),
                    self.absolutize_home_dir,
                ));
            }
            return out;
        }
        let mut i: usize = 0;
        while i < roots.len()
            invariant
                0 <= i <= roots@.len(),
                text@ == text_s,
                !is_absolute_path(text_s),
                out@.len() == i,
                forall|k: int|
                    0 <= k < i ==> (#[trigger] out@[k])@ == (PathPositionModel {
                        path: joined(roots_view(roots@)[k], text_s),
                        position: position,
                        range: variation_range@,
                    }),
            decreases roots@.len() - i,
        {
            let joined_path = join_vec(&roots[i], &text);
            out.push(
                MaybePathWithPosition { path: joined_path, position, range: variation_range },
            );
            i = i + 1;
        }
        proof {
            assert(out@.map_values(|p: MaybePathWithPosition| p@) =~= roots_part(
                text_s,
                variation_range@,
                position,
                roots_view(roots@),
            ));
        }
        self.absolutize_home_dir(&text, home_dir, variation_range, position, &mut out);
        proof {
            assert(out@.map_values(|p: MaybePathWithPosition| p@) =~= absolutize_model(
                s,
                variation_range@,
                position,
                roots_view(roots@),
                opt_view(home_dir),
                self.absolutize_home_dir,
            ));
        }
        out
    }

    /// Appends the home-expanded candidate when this variant allows home
    /// expansion, a home directory is known, and the text starts with `~`.
    fn absolutize_home_dir(
        &self,
        text: &Vec<u8>,
        home_dir: Option<&Vec<u8>>,
        variation_range: ByteRange,
        position: Option<RowColumn>,
        absolutized: &mut Vec<MaybePathWithPosition>,
    )
        ensures
            final(absolutized)@.map_values(|p: MaybePathWithPosition| p@) == old(
                absolutized,
            )@.map_values(|p: MaybePathWithPosition| p@) + home_part(
                text@,
                variation_range@,
                position,
                opt_view(home_dir),
                self.absolutize_home_dir,
            ),
    {
        if self.absolutize_home_dir {
            match home_dir {
                Some(h) => {
                    let mut tilde: Vec<u8> = Vec::new();
                    tilde.push(126);
                    proof {
                        assert(tilde@ =~= seq![126u8]);
                    }
                    match try_strip(text, &tilde) {
                        Some(tail) => {
                            let joined_path = join_vec(h, &tail);
                            absolutized.push(
                                MaybePathWithPosition {
                                    path: joined_path,
                                    position,
                                    range: variation_range,
                                },
                            );
                            proof {
                                assert(absolutized@.map_values(|p: MaybePathWithPosition| p@)
                                    =~= old(absolutized)@.map_values(
                                    |p: MaybePathWithPosition| p@,
                                ) + home_part(
                                    text@,
                                    variation_range@,
                                    position,
                                    opt_view(home_dir),
                                    self.absolutize_home_dir,
                                ));
                            }
                        },
                        None => {
                            proof {
                                assert(absolutized@.map_values(|p: MaybePathWithPosition| p@)
                                    =~= old(absolutized)@.map_values(
                                    |p: MaybePathWithPosition| p@,
                                ));
                            }
                        },
                    }
                },
                None => {
                    proof {
                        assert(absolutized@.map_values(|p: MaybePathWithPosition| p@) =~= old(
                            absolutized,
                        )@.map_values(|p: MaybePathWithPosition| p@));
                    }
                },
            }
        } else {
            proof {
                assert(absolutized@.map_values(|p: MaybePathWithPosition| p@) =~= old(
                    absolutized,
                )@.map_values(|p: MaybePathWithPosition| p@));
            }
        }
    }

    /// Builds the executable entry list in the absolutizer's order: every
    /// plain variation first, the positioned variation last.
    fn entries_positioned_last(&self) -> (r: Vec<(ByteRange, Option<RowColumn>)>)
        ensures
            r@.map_values(|e: (ByteRange, Option<RowColumn>)| (e.0@, e.1)) == plain_then_positioned(
                self@,
            ),
    {
        let mut items: Vec<(ByteRange, Option<RowColumn>)> = Vec::new();
        let mut i: usize = 0;
        while i < self.variations.len()
            invariant
                0 <= i <= self.variations@.len(),
                items@ == self.variations@.subrange(0, i as int).map_values(
                    |br: ByteRange| (br, Option::<RowColumn>::None),
                ),
            decreases self.variations@.len() - i,
        {
            items.push((self.variations[i], None));
            proof {
                assert(items@ =~= self.variations@.subrange(0, i as int + 1).map_values(
                    |br: ByteRange| (br, Option::<RowColumn>::None),
                ));
            }
            i = i + 1;
        }
        proof {
            assert(self.variations@.subrange(0, self.variations@.len() as int)
                =~= self.variations@);
        }
        match &self.positioned_variation {
            Some((r, rc)) => {
                items.push((*r, Some(*rc)));
            },
            None => {},
        }
        proof {
            assert(items@.map_values(|e: (ByteRange, Option<RowColumn>)| (e.0@, e.1))
                =~= plain_then_positioned(self@));
        }
        items
    }

    /// Absolutizes every variation of this variant against the given roots
    /// and home directory: plain variations in order, the positioned
    /// variation last.
    pub fn absolutized_variations(
        &self,
        line: &[u8],
        roots: &Vec<Vec<u8>>,
        home_dir: Option<&Vec<u8>>,
    ) -> (r: Vec<MaybePathWithPosition>)
        requires
            self.wf(line@.len()),
        ensures
            r@.map_values(|p: MaybePathWithPosition| p@) == absolutized_model(
                line@,
                self@,
                roots_view(roots@),
                opt_view(home_dir),
            ),
    {
        let ghost s = line@;
        let items = self.entries_positioned_last();
        let ghost ilist = plain_then_positioned(self@);
        proof {
            lemma_entry_ranges_wf(*self, line@.len());
            assert(ilist.skip(0) =~= ilist);
        }
        let mut out: Vec<MaybePathWithPosition> = Vec::new();
        let mut i: usize = 0;
        while i < items.len()
            invariant
                0 <= i <= items@.len(),
                s == line@,
                self.wf(line@.len()),
                items@.map_values(|e: (ByteRange, Option<RowColumn>)| (e.0@, e.1)) == ilist,
                ilist == plain_then_positioned(self@),
                forall|k: int|
                    0 <= k < ilist.len() ==> {
                        let e = #[trigger] ilist[k];
                        0 <= e.0.0 <= e.0.1 <= line@.len()
                    },
                out@.map_values(|p: MaybePathWithPosition| p@) + concat_absolutized(
                    s,
                    ilist.skip(i as int),
                    roots_view(roots@),
                    opt_view(home_dir),
                    self.absolutize_home_dir,
                ) == concat_absolutized(
                    s,
                    ilist,
                    roots_view(roots@),
                    opt_view(home_dir),
                    self.absolutize_home_dir,
                ),
            decreases items@.len() - i,
        {
            let (range, position) = items[i];
            proof {
                assert(items@.map_values(|e: (ByteRange, Option<RowColumn>)| (e.0@, e.1))[i as int]
                    == (range@, position));
                assert(ilist[i as int] == (range@, position));
                assert(range.wf(line@.len()));
            }
            let mut part = self.absolutize(line, roots, home_dir, range, position);
            let ghost out_pre = out@;
            let ghost part_view = part@;
            out.append(&mut part);
            proof {
                let f = |p: MaybePathWithPosition| p@;
                assert(out@.map_values(f) =~= out_pre.map_values(f) + part_view.map_values(f));
                let rest = ilist.skip(i as int);
                assert(rest[0] == ilist[i as int]);
                assert(rest.drop_first() =~= ilist.skip(i as int + 1));
                assert(concat_absolutized(
                    s,
                    rest,
                    roots_view(roots@),
                    opt_view(home_dir),
                    self.absolutize_home_dir,
                ) == part_view.map_values(f) + concat_absolutized(
                    s,
                    ilist.skip(i as int + 1),
                    roots_view(roots@),
                    opt_view(home_dir),
                    self.absolutize_home_dir,
                ));
                assert(out@.map_values(f) + concat_absolutized(
                    s,
                    ilist.skip(i as int + 1),
                    roots_view(roots@),
                    opt_view(home_dir),
                    self.absolutize_home_dir,
                ) =~= out_pre.map_values(f) + concat_absolutized(
                    s,
                    rest,
                    roots_view(roots@),
                    opt_view(home_dir),
                    self.absolutize_home_dir,
                ));
            }
            i = i + 1;
        }
        proof {
            assert(ilist.skip(ilist.len() as int) =~= Seq::<((int, int), Option<RowColumn>)>::empty());
            assert(out@.map_values(|p: MaybePathWithPosition| p@) =~= concat_absolutized(
                s,
                ilist,
                roots_view(roots@),
                opt_view(home_dir),
                self.absolutize_home_dir,
            ));
        }
        out
    }
}

} // verus!
