use path_hyperlinks::ByteRange;
use path_hyperlinks::hover::GridMatch;
use path_hyperlinks::hover::GridPoint;
use path_hyperlinks::hover::GridStep;
use path_hyperlinks::hover::HoveredMaybePath;
use path_hyperlinks::path_position::MaybePathWithPosition;
use path_hyperlinks::resolver::Resolver;
use path_hyperlinks::row_column::RowColumn;
use path_hyperlinks::tiers::MaybePath;
use path_hyperlinks::variant::MaybePathVariant;
use path_hyperlinks::words::preapproved_path_match;
use path_hyperlinks::words::words_in;

fn grid() -> GridMatch {
    GridMatch {
        start: GridPoint { line: 0, column: 0 },
        end: GridPoint { line: 0, column: 0 },
    }
}

fn word_range(line: &str, word: &str) -> ByteRange {
    let start = line.find(word).unwrap();
    ByteRange { start, end: start + word.len() }
}

fn absolutized_for(
    line: &str,
    hovered: ByteRange,
    roots: &[&str],
    home: Option<&str>,
) -> Vec<MaybePathWithPosition> {
    let mp = MaybePath::new(line.as_bytes().to_vec(), hovered, Vec::new());
    let roots: Vec<Vec<u8>> = roots.iter().map(|r| r.as_bytes().to_vec()).collect();
    let home = home.map(|h| h.as_bytes().to_vec());
    let mut out = Vec::new();
    for variant in mp.default_maybe_path_variants() {
        out.extend(variant.absolutized_variations(&mp.line, &roots, home.as_ref()));
    }
    out
}

fn resolve(candidates: Vec<MaybePathWithPosition>, fs: &[&str]) -> Option<(String, Option<RowColumn>)> {
    let mut resolver = Resolver::new(candidates);
    while let Some(i) = resolver.next_probe() {
        let path = String::from_utf8(resolver.candidates[i].path.clone()).unwrap();
        resolver.record(fs.iter().any(|f| *f == path));
    }
    resolver.open_target_index().map(|i| {
        let c = &resolver.candidates[i];
        (String::from_utf8(c.path.clone()).unwrap(), c.position)
    })
}

#[test]
fn symbol_stripped_wins() {
    let line = "(/root 2/שיתופית.rs)";
    let hovered = word_range(line, "2/שיתופית.rs)");
    // the immediate highlight covers the stripped interior
    let hover = HoveredMaybePath::from_line(line.as_bytes().to_vec(), hovered, grid());
    let hit = hover.best_heuristic_hovered_word().unwrap();
    assert_eq!(
        &line.as_bytes()[hit.range.start..hit.range.end],
        "/root 2/שיתופית.rs".as_bytes()
    );
    // and resolution opens the file inside the worktree
    let candidates = absolutized_for(line, hovered, &["/root 2"], None);
    let target = resolve(candidates, &["/root 2", "/root 2/שיתופית.rs"]);
    assert_eq!(target, Some(("/root 2/שיתופית.rs".to_string(), None)));
}

#[test]
fn git_diff_strip_without_home_expansion() {
    let line = "+++ a/~/foo.rs";
    let hovered = word_range(line, "a/~/foo.rs");
    let mp = MaybePath::new(line.as_bytes().to_vec(), hovered, Vec::new());
    let variant = MaybePathVariant::new(line.as_bytes(), hovered);
    // both the original and the git-stripped form are offered
    let prefix: Option<&Vec<u8>> = None;
    let relative: Vec<String> = variant
        .relative_variations(&mp.line, prefix)
        .into_iter()
        .map(|p| String::from_utf8(p.path).unwrap())
        .collect();
    assert_eq!(relative, vec!["a/~/foo.rs".to_string(), "~/foo.rs".to_string()]);
    // but `~` is never expanded for a git-diff candidate
    let roots = vec!["/p".as_bytes().to_vec()];
    let home = "/home/u".as_bytes().to_vec();
    let absolutized: Vec<String> = variant
        .absolutized_variations(&mp.line, &roots, Some(&home))
        .into_iter()
        .map(|p| String::from_utf8(p.path).unwrap())
        .collect();
    assert_eq!(
        absolutized,
        vec!["/p/a/~/foo.rs".to_string(), "/p/~/foo.rs".to_string()]
    );
    assert!(!absolutized.contains(&"/home/u/foo.rs".to_string()));
}

#[test]
fn row_column_suffix() {
    let line = "Main.cs:20:5:Error desc";
    let capture = preapproved_path_match(line.as_bytes()).unwrap();
    assert_eq!(&line[capture.start..capture.end], "Main.cs:20:5");
    let variant = MaybePathVariant::new(line.as_bytes(), capture);
    let (range, rc) = variant.positioned_variation.unwrap();
    assert_eq!(&line[range.start..range.end], "Main.cs");
    assert_eq!(rc.row, 20);
    assert_eq!(rc.column, Some(5));
    // the suffix re-extends the hyperlink exactly to the capture's end
    assert_eq!(range.end + rc.suffix_length, capture.end);
}

#[test]
fn alternate_msvc_suffix() {
    let line = "Main.cs(20,5):Error desc";
    let capture = preapproved_path_match(line.as_bytes()).unwrap();
    assert_eq!(&line[capture.start..capture.end], "Main.cs(20,5)");
    let variant = MaybePathVariant::new(line.as_bytes(), capture);
    let (range, rc) = variant.positioned_variation.unwrap();
    assert_eq!(&line[range.start..range.end], "Main.cs");
    assert_eq!(rc.row, 20);
    assert_eq!(rc.column, Some(5));
    assert_eq!(range.end + rc.suffix_length, capture.end);
}

#[test]
fn line_ends_in_a_path_with_spaces() {
    let line = "+++ a/~/협동조합   ~/super/cool b/path:4:2 (/root 2/שיתופית.rs)";
    let hovered = word_range(line, "(/root");
    let candidates = absolutized_for(line, hovered, &["/root 2"], None);
    let target = resolve(candidates, &["/root 2", "/root 2/שיתופית.rs"]);
    assert_eq!(target, Some(("/root 2/שיתופית.rs".to_string(), None)));
}

#[test]
fn no_match_clears() {
    let line = "hello world";
    let hovered = word_range(line, "hello");
    // no immediate heuristic highlight
    let hover = HoveredMaybePath::from_line(line.as_bytes().to_vec(), hovered, grid());
    assert!(hover.best_heuristic_hovered_word().is_none());
    // and resolution yields no target
    let candidates = absolutized_for(line, hovered, &["/w"], None);
    assert_eq!(resolve(candidates, &["/w/other.txt"]), None);
}

#[test]
fn cancellation_stops_probing() {
    let line = "+++ a/~/협동조합   ~/super/cool b/path:4:2 (/root 2/שיתופית.rs)";
    let hovered = word_range(line, "(/root");
    let candidates = absolutized_for(line, hovered, &["/root 2"], None);
    let mut resolver = Resolver::new(candidates);
    // one probe is outstanding when the cancel arrives
    assert_eq!(resolver.next_probe(), Some(0));
    resolver.cancel();
    // no further probes are issued and no result is surfaced
    assert_eq!(resolver.next_probe(), None);
    assert_eq!(resolver.next_probe(), None);
    assert_eq!(resolver.open_target_index(), None);
}

#[test]
fn first_match_is_kept_when_candidates_are_added() {
    let mk = |p: &str| MaybePathWithPosition {
        path: p.as_bytes().to_vec(),
        position: None,
        range: ByteRange { start: 0, end: 0 },
    };
    let fs = ["/a/two", "/a/four"];
    let shorter = vec![mk("/a/one"), mk("/a/two"), mk("/a/three")];
    let mut longer = shorter.clone();
    longer.push(mk("/a/four"));
    let first = resolve(shorter, &fs);
    let second = resolve(longer, &fs);
    assert_eq!(first, Some(("/a/two".to_string(), None)));
    assert_eq!(second, first);
}

#[test]
fn grid_steps_count_graphemes_not_bytes() {
    let line = "+++ שיתופית.rs";
    let hovered = word_range(line, "שיתופית.rs");
    let hover = HoveredMaybePath::from_line(line.as_bytes().to_vec(), hovered, grid());
    // moving the start from the word to the line start crosses four cells:
    // three plus signs and a space
    let (start_step, end_step) =
        hover.match_steps_from_text_range(ByteRange { start: 0, end: line.len() });
    assert_eq!(start_step, GridStep::Backward(4));
    assert_eq!(end_step, GridStep::Stay);
    // the Hebrew word is seven grapheme clusters plus ".rs"
    let (to_word_start, to_path_end) = hover.match_steps_from_text_range(ByteRange {
        start: hovered.start,
        end: hovered.end - 3,
    });
    assert_eq!(to_word_start, GridStep::Stay);
    assert_eq!(to_path_end, GridStep::Backward(3));
}

#[test]
fn grid_steps_treat_combining_marks_as_one_cell() {
    // "xe\u{301}y": the accented e is a single grapheme cluster of three bytes
    let line = "xe\u{301}y";
    let hovered = ByteRange { start: 0, end: line.len() };
    let hover = HoveredMaybePath::from_line(line.as_bytes().to_vec(), hovered, grid());
    let (_, end_step) = hover.match_steps_from_text_range(ByteRange {
        start: 0,
        end: line.len() - 1,
    });
    assert_eq!(end_step, GridStep::Backward(1));
    let (start_step, _) = hover.match_steps_from_text_range(ByteRange {
        start: line.len() - 1,
        end: line.len(),
    });
    assert_eq!(start_step, GridStep::Forward(2));
}

#[test]
fn custom_path_regex_capture() {
    let line = "error in foo.rs on line 3";
    let hovered = word_range(line, "foo.rs");
    let regexes = vec![regex::Regex::new(r"(?<path>[a-z]+\.rs)").unwrap()];
    let capture =
        path_hyperlinks::tiers::path_regex_match(line.as_bytes(), hovered, &regexes).unwrap();
    assert_eq!(&line[capture.start..capture.end], "foo.rs");
    // a capture that does not overlap the hover is not returned
    let elsewhere = word_range(line, "error");
    assert!(path_hyperlinks::tiers::path_regex_match(line.as_bytes(), elsewhere, &regexes).is_none());
}

#[test]
fn best_heuristic_prefers_looks_like_a_path() {
    let line = "open src/main.rs now";
    let hovered = word_range(line, "src/main.rs");
    let hover = HoveredMaybePath::from_line(line.as_bytes().to_vec(), hovered, grid());
    let hit = hover.best_heuristic_hovered_word().unwrap();
    assert_eq!(hit.range, hovered);
    assert_eq!(hit.start_step, GridStep::Stay);
    assert_eq!(hit.end_step, GridStep::Stay);
}

#[test]
fn best_heuristic_falls_back_to_preapproved_capture() {
    let line = "Main:12: boom";
    let hovered = word_range(line, "Main:12:");
    let hover = HoveredMaybePath::from_line(line.as_bytes().to_vec(), hovered, grid());
    let hit = hover.best_heuristic_hovered_word().unwrap();
    assert_eq!(&line.as_bytes()[hit.range.start..hit.range.end], b"Main:12");
}
