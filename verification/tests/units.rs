use path_hyperlinks::ByteRange;
use path_hyperlinks::path_position::MaybePathWithPosition;
use path_hyperlinks::row_column::parse_row_column;
use path_hyperlinks::row_column::RowColumn;
use path_hyperlinks::symbols::longest_surrounding_symbols_match;
use path_hyperlinks::variant::MaybePathVariant;
use path_hyperlinks::words::words_in;

fn range_of(line: &str, part: &str) -> ByteRange {
    let start = line.find(part).unwrap();
    ByteRange { start, end: start + part.len() }
}

#[test]
fn words_split_on_whitespace_and_quotes() {
    let line = "+++ a/~/협동조합   ~/super/cool b/path:4:2 (/root 2/שיתופית.rs)";
    let words: Vec<&str> = words_in(line.as_bytes(), 0, line.len())
        .into_iter()
        .map(|w| &line[w.start..w.end])
        .collect();
    assert_eq!(
        words,
        vec!["+++", "a/~/협동조합", "~/super/cool", "b/path:4:2", "(/root", "2/שיתופית.rs)"]
    );
    let quoted = "open \"my file.txt\" now";
    let words: Vec<&str> = words_in(quoted.as_bytes(), 0, quoted.len())
        .into_iter()
        .map(|w| &quoted[w.start..w.end])
        .collect();
    assert_eq!(words, vec!["open", "my", "file.txt", "now"]);
}

#[test]
fn surrounding_symbols_longest_pair_wins() {
    let line = "[a (b) c]";
    let word = range_of(line, "b");
    let sr = longest_surrounding_symbols_match(line.as_bytes(), word).unwrap();
    assert_eq!(&line[sr.start..sr.end], "[a (b) c]");
    let line = "x (only here) q";
    let word = range_of(line, "only");
    let sr = longest_surrounding_symbols_match(line.as_bytes(), word).unwrap();
    assert_eq!(&line[sr.start..sr.end], "(only here)");
    // a pair that does not contain the word does not count
    let word = range_of(line, "q");
    assert!(longest_surrounding_symbols_match(line.as_bytes(), word).is_none());
}

#[test]
fn parse_row_column_grammar() {
    let check = |text: &str| parse_row_column(text.as_bytes(), 0, text.len());
    // :ROW
    let (path_end, rc) = check("a/b:7").unwrap();
    assert_eq!(path_end, 3);
    assert_eq!(rc, RowColumn { row: 7, column: None, suffix_length: 2 });
    // :ROW:COL
    let (path_end, rc) = check("a/b:7:44").unwrap();
    assert_eq!(path_end, 3);
    assert_eq!(rc, RowColumn { row: 7, column: Some(44), suffix_length: 5 });
    // (ROW,COL)
    let (path_end, rc) = check("a/b(7,44)").unwrap();
    assert_eq!(path_end, 3);
    assert_eq!(rc, RowColumn { row: 7, column: Some(44), suffix_length: 6 });
    // no suffix at all
    assert!(check("a/b").is_none());
    // a trailing colon is not part of the grammar
    assert!(check("a/b:7:").is_none());
    // the path part must be non-empty; ":4:2" only parses as path ":4" row 2
    let (path_end, rc) = check(":4:2").unwrap();
    assert_eq!(path_end, 2);
    assert_eq!(rc, RowColumn { row: 2, column: None, suffix_length: 2 });
    assert!(check("(4,2)").is_none());
    // values beyond u32 yield no suffix
    assert!(check("a/b:99999999999").is_none());
    assert!(check("a/b:4:99999999999").is_none());
    // the largest representable row still parses
    let (_, rc) = check("a/b:4294967295").unwrap();
    assert_eq!(rc.row, u32::MAX);
    assert_eq!(rc.suffix_length, 11);
}

#[test]
fn variant_on_short_ranges_yields_only_the_base() {
    let line = "()";
    let variant = MaybePathVariant::new(line.as_bytes(), ByteRange { start: 0, end: 2 });
    // two bytes are not enough to strip the parentheses
    assert_eq!(variant.variations.len(), 1);
    assert!(variant.positioned_variation.is_none());
    assert!(variant.absolutize_home_dir);
    // three are: the single-byte interior is offered first
    let line = "(x)";
    let variant = MaybePathVariant::new(line.as_bytes(), ByteRange { start: 0, end: 3 });
    let texts: Vec<&str> = variant
        .variations
        .iter()
        .map(|r| &line[r.start..r.end])
        .collect();
    assert_eq!(texts, vec!["x", "(x)"]);
}

#[test]
fn variant_symbol_strip_outranks_the_original() {
    let line = "see [lib/util.rs] there";
    let base = range_of(line, "[lib/util.rs]");
    let variant = MaybePathVariant::new(line.as_bytes(), base);
    let texts: Vec<&str> = variant
        .variations
        .iter()
        .map(|r| &line[r.start..r.end])
        .collect();
    assert_eq!(texts, vec!["lib/util.rs", "[lib/util.rs]"]);
    assert!(variant.absolutize_home_dir);
}

#[test]
fn variant_never_parses_positions_on_the_git_form() {
    let line = "a/some/path:4:2";
    let variant = MaybePathVariant::new(
        line.as_bytes(),
        ByteRange { start: 0, end: line.len() },
    );
    let texts: Vec<&str> = variant
        .variations
        .iter()
        .map(|r| &line[r.start..r.end])
        .collect();
    assert_eq!(texts, vec!["a/some/path:4:2", "some/path:4:2"]);
    // the position is parsed on the full form, prefix included
    let (range, rc) = variant.positioned_variation.unwrap();
    assert_eq!(&line[range.start..range.end], "a/some/path");
    assert_eq!(rc, RowColumn { row: 4, column: Some(2), suffix_length: 4 });
    assert!(!variant.absolutize_home_dir);
}

#[test]
fn path_with_position_rendering() {
    let with = |position: Option<RowColumn>| MaybePathWithPosition {
        path: b"a/b".to_vec(),
        position,
        range: ByteRange { start: 10, end: 13 },
    };
    let none = with(None);
    assert_eq!(none.to_string(), b"a/b".to_vec());
    assert_eq!(none.hyperlink_range(), ByteRange { start: 10, end: 13 });
    let row = with(Some(RowColumn { row: 7, column: None, suffix_length: 2 }));
    assert_eq!(row.to_string(), b"a/b:7".to_vec());
    assert_eq!(row.hyperlink_range(), ByteRange { start: 10, end: 15 });
    let both = with(Some(RowColumn { row: 7, column: Some(44), suffix_length: 5 }));
    assert_eq!(both.to_string(), b"a/b:7:44".to_vec());
    assert_eq!(both.hyperlink_range(), ByteRange { start: 10, end: 18 });
    let zero = with(Some(RowColumn { row: 0, column: Some(0), suffix_length: 4 }));
    assert_eq!(zero.to_string(), b"a/b:0:0".to_vec());
    let max = with(Some(RowColumn { row: u32::MAX, column: None, suffix_length: 11 }));
    assert_eq!(max.to_string(), b"a/b:4294967295".to_vec());
}

#[test]
fn exhaustive_tier_crosses_starts_and_ends() {
    let line = "a bb.c dd";
    let hovered = range_of(line, "bb.c");
    let mp = path_hyperlinks::tiers::MaybePath::new(line.as_bytes().to_vec(), hovered, Vec::new());
    let bases: Vec<&str> = mp
        .exhaustive_maybe_path_variants()
        .iter()
        .map(|v| {
            let b = v.base_range();
            &line[b.start..b.end]
        })
        .collect();
    // for each word start at or before the hover, every end at or after it,
    // longest candidates first within a row
    assert_eq!(bases, vec!["a bb.c dd", "a bb.c", "bb.c dd", "bb.c"]);
}

#[test]
fn path_with_position_ownership() {
    let p = MaybePathWithPosition {
        path: b"rel/x".to_vec(),
        position: None,
        range: ByteRange { start: 2, end: 7 },
    };
    let owned = p.clone().into_owned();
    assert_eq!(owned, p);
    let replaced = p.clone().into_owned_with_path(b"/abs/x".to_vec());
    assert_eq!(replaced.path, b"/abs/x".to_vec());
    assert_eq!(replaced.position, p.position);
}
