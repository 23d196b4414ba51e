//! Row/column suffix parsing and rendering. A candidate path may end in
//! `:ROW`, `:ROW:COL` or `(ROW,COL)` where `ROW` and `COL` are decimal
//! integers; the suffix is stripped from the path and kept alongside it so
//! the hyperlink can be re-extended to cover it.

use vstd::prelude::*;

verus! {

/// Row and (optional) column parsed from a candidate's trailing suffix.
/// A column never occurs without a row. `suffix_length` is the number of
/// bytes the suffix consumed, so the full hyperlink range can be recovered.
#[derive(Clone, Copy, Debug, PartialEq, Eq, Hash)]
pub struct RowColumn {
    pub row: u32,
    pub column: Option<u32>,
    pub suffix_length: usize,
}

/// ASCII decimal digit.
pub open spec fn is_digit(b: u8) -> bool {
    48 <= b <= 57
}

/// Start of the maximal digit run of `s` ending just before `j`: the smallest
/// `i` such that every byte of `s[i..j)` is a digit and `s[i - 1]` is not.
pub open spec fn digits_start(s: Seq<u8>, j: int) -> int
    decreases j,
{
    if j <= 0 {
        0
    } else if is_digit(s[j - 1]) {
        digits_start(s, j - 1)
    } else {
        j
    }
}

pub proof fn lemma_digits_start_props(s: Seq<u8>, j: int)
    requires
        0 <= j <= s.len(),
    ensures
        0 <= digits_start(s, j) <= j,
        forall|k: int| digits_start(s, j) <= k < j ==> is_digit(#[trigger] s[k]),
        digits_start(s, j) > 0 ==> !is_digit(s[digits_start(s, j) - 1]),
    decreases j,
{
    if j > 0 && is_digit(s[j - 1]) {
        lemma_digits_start_props(s, j - 1);
    }
}

/// Value of the decimal digit string `s[i..j)`.
pub open spec fn dec_val(s: Seq<u8>, i: int, j: int) -> int
    decreases j - i,
{
    if j <= i {
        0
    } else {
        dec_val(s, i, j - 1) * 10 + (s[j - 1] - 48)
    }
}

pub proof fn lemma_dec_val_nonneg(s: Seq<u8>, i: int, j: int)
    requires
        forall|k: int| i <= k < j ==> is_digit(#[trigger] s[k]),
    ensures
        dec_val(s, i, j) >= 0,
    decreases j - i,
{
    if j > i {
        lemma_dec_val_nonneg(s, i, j - 1);
    }
}

/// The digit value of a slice of a subrange equals the digit value of the
/// same bytes addressed on the full sequence.
pub proof fn lemma_dec_val_sub(s: Seq<u8>, a: int, b: int, i: int, j: int)
    requires
        0 <= a <= i <= j <= b <= s.len(),
    ensures
        dec_val(s, i, j) == dec_val(s.subrange(a, b), i - a, j - a),
    decreases j - i,
{
    if j > i {
        lemma_dec_val_sub(s, a, b, i, j - 1);
        assert(s.subrange(a, b)[j - a - 1] == s[j - 1]);
    }
}

/// Everything parsed from a trailing suffix, in mathematical form, relative to
/// the candidate slice: `path_len` bytes of path, then `suffix_len` bytes of
/// suffix.
pub ghost struct SuffixInfo {
    pub path_len: int,
    pub row: int,
    pub column: Option<int>,
    pub suffix_len: int,
}

/// Parses a trailing `(ROW,COL)` suffix of `t`.
pub open spec fn parse_paren_suffix(t: Seq<u8>) -> Option<SuffixInfo> {
    let n = t.len() as int;
    let c2 = digits_start(t, n - 1);
    if c2 < n - 1 && c2 > 0 && t[c2 - 1] == 44 {
        let c1 = digits_start(t, c2 - 1);
        if c1 < c2 - 1 && c1 > 1 && t[c1 - 1] == 40 && dec_val(t, c1, c2 - 1) <= u32::MAX
            && dec_val(t, c2, n - 1) <= u32::MAX {
            Some(
                SuffixInfo {
                    path_len: c1 - 1,
                    row: dec_val(t, c1, c2 - 1),
                    column: Some(dec_val(t, c2, n - 1)),
                    suffix_len: n - (c1 - 1),
                },
            )
        } else {
            None
        }
    } else {
        None
    }
}

/// Parses a trailing `:ROW` or `:ROW:COL` suffix of `t`; the two-number form
/// wins when both shapes are present.
pub open spec fn parse_colon_suffix(t: Seq<u8>) -> Option<SuffixInfo> {
    let n = t.len() as int;
    let d2 = digits_start(t, n);
    if d2 < n && d2 > 0 && t[d2 - 1] == 58 {
        let d1 = digits_start(t, d2 - 1);
        if d1 < d2 - 1 && d1 > 1 && t[d1 - 1] == 58 {
            if dec_val(t, d1, d2 - 1) <= u32::MAX && dec_val(t, d2, n) <= u32::MAX {
                Some(
                    SuffixInfo {
                        path_len: d1 - 1,
                        row: dec_val(t, d1, d2 - 1),
                        column: Some(dec_val(t, d2, n)),
                        suffix_len: n - (d1 - 1),
                    },
                )
            } else {
                None
            }
        } else if d2 > 1 && dec_val(t, d2, n) <= u32::MAX {
            Some(
                SuffixInfo {
                    path_len: d2 - 1,
                    row: dec_val(t, d2, n),
                    column: None,
                    suffix_len: n - (d2 - 1),
                },
            )
        } else {
            None
        }
    } else {
        None
    }
}

/// Parses a trailing row/column suffix of `t`: `(ROW,COL)` when `t` ends with
/// a closing parenthesis, else `:ROW:COL` or `:ROW`. The path part before the
/// suffix must be non-empty, and values beyond `u32` yield no suffix.
pub open spec fn parse_suffix(t: Seq<u8>) -> Option<SuffixInfo> {
    let n = t.len() as int;
    if n > 0 && t[n - 1] == 41 {
        parse_paren_suffix(t)
    } else {
        parse_colon_suffix(t)
    }
}

/// A successful parse yields a non-empty path, a non-empty suffix beginning
/// with `:` or `(`, row and column values that fit in `u32`, and
/// `path_len + suffix_len` equal to the candidate's length.
pub proof fn lemma_parse_suffix_props(t: Seq<u8>)
    ensures
        match parse_suffix(t) {
            Some(info) => {
                &&& 0 < info.path_len < t.len()
                &&& 0 < info.suffix_len
                &&& info.path_len + info.suffix_len == t.len()
                &&& t[info.path_len] == 58 || t[info.path_len] == 40
                &&& 0 <= info.row <= u32::MAX
                &&& match info.column {
                    Some(c) => 0 <= c <= u32::MAX,
                    None => true,
                }
            },
            None => true,
        },
{
    let n = t.len() as int;
    if n > 0 && t[n - 1] == 41 {
        lemma_digits_start_props(t, n - 1);
        let c2 = digits_start(t, n - 1);
        if c2 < n - 1 && c2 > 0 && t[c2 - 1] == 44 {
            lemma_digits_start_props(t, c2 - 1);
            let c1 = digits_start(t, c2 - 1);
            if c1 < c2 - 1 && c1 > 1 && t[c1 - 1] == 40 {
                lemma_dec_val_nonneg(t, c1, c2 - 1);
                lemma_dec_val_nonneg(t, c2, n - 1);
            }
        }
    } else {
        lemma_digits_start_props(t, n);
        let d2 = digits_start(t, n);
        if d2 < n && d2 > 0 && t[d2 - 1] == 58 {
            lemma_digits_start_props(t, d2 - 1);
            let d1 = digits_start(t, d2 - 1);
            lemma_dec_val_nonneg(t, d1, d2 - 1);
            lemma_dec_val_nonneg(t, d2, n);
        }
    }
}

/// Value of the decimal digit string `line[i..j)`, or `None` when it exceeds
/// `u32::MAX`.
fn dec_value_u32(line: &[u8], i: usize, j: usize) -> (r: Option<u32>)
    requires
        i <= j <= line@.len(),
        forall|k: int| i <= k < j ==> is_digit(#[trigger] line@[k]),
    ensures
        match r {
            Some(v) => v as int == dec_val(line@, i as int, j as int) && dec_val(
                line@,
                i as int,
                j as int,
            ) <= u32::MAX,
            None => dec_val(line@, i as int, j as int) > u32::MAX,
        },
{
    let mut acc: u64 = 0;
    let mut k: usize = i;
    let mut overflowed = false;
    while k < j
        invariant
            i <= k <= j <= line@.len(),
            forall|q: int| i <= q < j ==> is_digit(#[trigger] line@[q]),
            !overflowed ==> acc as int == dec_val(line@, i as int, k as int) && acc
                <= u32::MAX as u64,
            overflowed ==> dec_val(line@, i as int, k as int) > u32::MAX,
        decreases j - k,
    {
        let d = line[k] - 48;
        if !overflowed {
            let next = acc * 10 + (d as u64);
            if next > u32::MAX as u64 {
                overflowed = true;
            } else {
                acc = next;
            }
        } else {
            proof {
                let prev = dec_val(line@, i as int, k as int);
                assert(prev * 10 >= (u32::MAX as int + 1) * 10) by (nonlinear_arith)
                    requires
                        prev >= u32::MAX as int + 1,
                ;
            }
        }
        k = k + 1;
    }
    if overflowed {
        None
    } else {
        Some(acc as u32)
    }
}

/// `digits_start` of the subrange `line[a..b)`, returned as an absolute index:
/// the start of the maximal digit run ending just before absolute index `j`,
/// never below `a`.
fn digits_start_rel(line: &[u8], a: usize, b: usize, j: usize) -> (r: usize)
    requires
        a <= j <= b <= line@.len(),
    ensures
        r as int - a as int == digits_start(
            line@.subrange(a as int, b as int),
            j as int - a as int,
        ),
        a <= r <= j,
{
    let ghost t = line@.subrange(a as int, b as int);
    let mut i: usize = j;
    while i > a && line[i - 1] >= 48 && line[i - 1] <= 57
        invariant
            a <= i <= j <= b <= line@.len(),
            t == line@.subrange(a as int, b as int),
            digits_start(t, j as int - a as int) == digits_start(t, i as int - a as int),
        decreases i,
    {
        proof {
            assert(t[i as int - a as int - 1] == line@[i as int - 1]);
        }
        i = i - 1;
    }
    proof {
        if i > a {
            assert(t[i as int - a as int - 1] == line@[i as int - 1]);
        }
    }
    i
}

/// Transfers the "all digits" fact from the subrange to the full line.
proof fn lemma_digits_abs(line: Seq<u8>, a: int, b: int, lo: int, hi: int)
    requires
        0 <= a <= lo <= hi <= b <= line.len(),
        forall|k: int|
            lo - a <= k < hi - a ==> is_digit(#[trigger] line.subrange(a, b)[k]),
    ensures
        forall|q: int| lo <= q < hi ==> is_digit(#[trigger] line[q]),
{
    assert forall|q: int| lo <= q < hi implies is_digit(#[trigger] line[q]) by {
        assert(line.subrange(a, b)[q - a] == line[q]);
    }
}

/// Parses a trailing row/column suffix of `line[a..b)`. On success, returns
/// the absolute end of the path part together with the parsed position.
pub fn parse_row_column(line: &[u8], a: usize, b: usize) -> (r: Option<(usize, RowColumn)>)
    requires
        a <= b <= line@.len(),
    ensures
        match r {
            Some((path_end, rc)) => match parse_suffix(line@.subrange(a as int, b as int)) {
                Some(info) => {
                    &&& path_end == a + info.path_len
                    &&& rc.row as int == info.row
                    &&& match (rc.column, info.column) {
                        (Some(c), Some(ci)) => c as int == ci,
                        (None, None) => true,
                        _ => false,
                    }
                    &&& rc.suffix_length as int == info.suffix_len
                },
                None => false,
            },
            None => parse_suffix(line@.subrange(a as int, b as int)) is None,
        },
{
    let ghost t = line@.subrange(a as int, b as int);
    if b > a && line[b - 1] == 41 {
        proof {
            assert(t[b as int - a as int - 1] == line@[b as int - 1]);
        }
        // (ROW,COL)
        let c2 = digits_start_rel(line, a, b, b - 1);
        proof {
            lemma_digits_start_props(t, b as int - 1 - a as int);
        }
        if c2 < b - 1 && c2 > a && line[c2 - 1] == 44 {
            proof {
                assert(t[c2 as int - a as int - 1] == line@[c2 as int - 1]);
            }
            let c1 = digits_start_rel(line, a, b, c2 - 1);
            proof {
                lemma_digits_start_props(t, c2 as int - 1 - a as int);
            }
            if c1 < c2 - 1 && c1 > a + 1 && line[c1 - 1] == 40 {
                proof {
                    assert(t[c1 as int - a as int - 1] == line@[c1 as int - 1]);
                    lemma_digits_abs(line@, a as int, b as int, c1 as int, c2 as int - 1);
                    lemma_digits_abs(line@, a as int, b as int, c2 as int, b as int - 1);
                    lemma_dec_val_sub(line@, a as int, b as int, c1 as int, c2 as int - 1);
                    lemma_dec_val_sub(line@, a as int, b as int, c2 as int, b as int - 1);
                }
                let row = dec_value_u32(line, c1, c2 - 1);
                let col = dec_value_u32(line, c2, b - 1);
                match (row, col) {
                    (Some(row), Some(col)) => {
                        return Some(
                            (
                                c1 - 1,
                                RowColumn { row, column: Some(col), suffix_length: b - (c1 - 1) },
                            ),
                        );
                    },
                    _ => {
                        return None;
                    },
                }
            } else {
                proof {
                    if c1 > a {
                        assert(t[c1 as int - a as int - 1] == line@[c1 as int - 1]);
                    }
                }
                return None;
            }
        } else {
            proof {
                if c2 > a {
                    assert(t[c2 as int - a as int - 1] == line@[c2 as int - 1]);
                }
            }
            return None;
        }
    }
    // :ROW or :ROW:COL
    proof {
        if b > a {
            assert(t[b as int - a as int - 1] == line@[b as int - 1]);
        }
    }
    let d2 = digits_start_rel(line, a, b, b);
    proof {
        lemma_digits_start_props(t, b as int - a as int);
    }
    if d2 < b && d2 > a && line[d2 - 1] == 58 {
        proof {
            assert(t[d2 as int - a as int - 1] == line@[d2 as int - 1]);
        }
        let d1 = digits_start_rel(line, a, b, d2 - 1);
        proof {
            lemma_digits_start_props(t, d2 as int - 1 - a as int);
        }
        if d1 < d2 - 1 && d1 > a + 1 && line[d1 - 1] == 58 {
            proof {
                assert(t[d1 as int - a as int - 1] == line@[d1 as int - 1]);
                lemma_digits_abs(line@, a as int, b as int, d1 as int, d2 as int - 1);
                lemma_digits_abs(line@, a as int, b as int, d2 as int, b as int);
                lemma_dec_val_sub(line@, a as int, b as int, d1 as int, d2 as int - 1);
                lemma_dec_val_sub(line@, a as int, b as int, d2 as int, b as int);
            }
            let row = dec_value_u32(line, d1, d2 - 1);
            let col = dec_value_u32(line, d2, b);
            match (row, col) {
                (Some(row), Some(col)) => {
                    return Some(
                        (d1 - 1, RowColumn { row, column: Some(col), suffix_length: b - (d1 - 1) }),
                    );
                },
                _ => {
                    return None;
                },
            }
        } else if d2 > a + 1 {
            proof {
                if d1 > a {
                    assert(t[d1 as int - a as int - 1] == line@[d1 as int - 1]);
                }
                lemma_digits_abs(line@, a as int, b as int, d2 as int, b as int);
                lemma_dec_val_sub(line@, a as int, b as int, d2 as int, b as int);
            }
            let row = dec_value_u32(line, d2, b);
            match row {
                Some(row) => {
                    return Some(
                        (d2 - 1, RowColumn { row, column: None, suffix_length: b - (d2 - 1) }),
                    );
                },
                None => {
                    return None;
                },
            }
        } else {
            proof {
                if d1 > a {
                    assert(t[d1 as int - a as int - 1] == line@[d1 as int - 1]);
                }
            }
            return None;
        }
    }
    None
}

/// Decimal digit string of the non-negative integer `n`, most significant
/// digit first.
pub open spec fn dec_str(n: int) -> Seq<u8>
    decreases n,
{
    if n < 0 {
        Seq::empty()
    } else if n < 10 {
        seq![(48 + n) as u8]
    } else {
        dec_str(n / 10).push((48 + n % 10) as u8)
    }
}

/// Appends the decimal digits of `n` to `out`.
pub fn push_decimal(out: &mut Vec<u8>, n: u32)
    ensures
        final(out)@ == old(out)@ + dec_str(n as int),
    decreases n,
{
    if n >= 10 {
        push_decimal(out, n / 10);
        let d = (n % 10) as u8;
        out.push(48 + d);
        proof {
            assert(out@ =~= old(out)@ + dec_str(n as int));
        }
    } else {
        let d = n as u8;
        out.push(48 + d);
        proof {
            assert(out@ =~= old(out)@ + dec_str(n as int));
        }
    }
}

} // verus!
