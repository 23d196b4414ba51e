use path_hyperlinks::path_position::MaybePathWithPosition;
use path_hyperlinks::resolver::Resolver;
use path_hyperlinks::row_column::RowColumn;
use path_hyperlinks::tiers::MaybePath;
use path_hyperlinks::variant::MaybePathVariant;
use path_hyperlinks::words::words_in;

const FULL: &str = "+++ a/~/협동조합   ~/super/cool b/path:4:2 (/root 2/שיתופית.rs)";
const A1: &str = "a/~/협동조합   ~/super/cool b/path:4:2 (/root 2/שיתופית.rs)";
const T1: &str = "~/협동조합   ~/super/cool b/path:4:2 (/root 2/שיתופית.rs)";
const SUF3: &str = "~/super/cool b/path:4:2 (/root 2/שיתופית.rs)";
const B4: &str = "b/path:4:2 (/root 2/שיתופית.rs)";
const P4: &str = "path:4:2 (/root 2/שיתופית.rs)";
const C5: &str = "(/root 2/שיתופית.rs)";
const I5: &str = "/root 2/שיתופית.rs";
const W6: &str = "2/שיתופית.rs)";
const WORKTREE: &str = "/root 2";
const CWD: &str = "/Some/cool/place";
const HOME_DIR: &str = "/Usors/uzer";

fn rc(row: u32, column: Option<u32>, suffix_length: usize) -> Option<RowColumn> {
    Some(RowColumn { row, column, suffix_length })
}

fn maybe_path_for_word(word_index: usize) -> MaybePath {
    let line = FULL.as_bytes().to_vec();
    let words = words_in(FULL.as_bytes(), 0, FULL.len());
    let hovered = words[word_index];
    MaybePath::new(line, hovered, Vec::new())
}

fn actual_relative(mp: &MaybePath, variants: &[MaybePathVariant]) -> Vec<(String, Option<RowColumn>)> {
    let prefix = WORKTREE.as_bytes().to_vec();
    let mut out = Vec::new();
    for variant in variants {
        for p in variant.relative_variations(&mp.line, Some(&prefix)) {
            out.push((String::from_utf8(p.path).unwrap(), p.position));
        }
    }
    out
}

fn actual_absolutized(
    mp: &MaybePath,
    variants: &[MaybePathVariant],
) -> Vec<MaybePathWithPosition> {
    let roots = vec![WORKTREE.as_bytes().to_vec(), CWD.as_bytes().to_vec()];
    let home = HOME_DIR.as_bytes().to_vec();
    let mut out = Vec::new();
    for variant in variants {
        out.extend(variant.absolutized_variations(&mp.line, &roots, Some(&home)));
    }
    out
}

fn as_pairs(list: &[MaybePathWithPosition]) -> Vec<(String, Option<RowColumn>)> {
    list.iter()
        .map(|p| (String::from_utf8(p.path.clone()).unwrap(), p.position))
        .collect()
}

fn resolve_open_target(absolutized: Vec<MaybePathWithPosition>) -> Option<(String, Option<RowColumn>)> {
    let fs: Vec<&str> = vec!["/root1", "/root1/one.txt", "/root1/two.txt", "/root 2", I5];
    let mut resolver = Resolver::new(absolutized);
    while let Some(i) = resolver.next_probe() {
        let path = String::from_utf8(resolver.candidates[i].path.clone()).unwrap();
        let hit = fs.iter().any(|f| *f == path);
        resolver.record(hit);
    }
    resolver.open_target_index().map(|i| {
        let c = &resolver.candidates[i];
        (String::from_utf8(c.path.clone()).unwrap(), c.position)
    })
}

fn check(
    word_index: usize,
    advanced: bool,
    expected_relative: Vec<(String, Option<RowColumn>)>,
    expected_absolutized: Vec<(String, Option<RowColumn>)>,
    expected_open_target: Option<(String, Option<RowColumn>)>,
) {
    let mp = maybe_path_for_word(word_index);
    let variants = if advanced {
        mp.advanced_maybe_path_variants()
    } else {
        mp.default_maybe_path_variants()
    };
    assert_eq!(actual_relative(&mp, &variants), expected_relative);
    let absolutized = actual_absolutized(&mp, &variants);
    assert_eq!(as_pairs(&absolutized), expected_absolutized);
    assert_eq!(resolve_open_target(absolutized), expected_open_target);
}

fn plain(path: String) -> (String, Option<RowColumn>) {
    (path, None)
}

#[test]
fn simple_maybe_paths() {
    // The line's one real path hides behind the surrounding parentheses; the
    // default tier finds it from the hover on "(/root", the advanced tier
    // from the symbol-stripped sweep candidate.
    for advanced in [false, true] {
        let mp = maybe_path_for_word(4);
        let variants = if advanced {
            mp.advanced_maybe_path_variants()
        } else {
            mp.default_maybe_path_variants()
        };
        let target = resolve_open_target(actual_absolutized(&mp, &variants));
        assert_eq!(target, Some((I5.to_string(), None)));
    }
}

#[test]
fn simple_maybe_paths_default_word_one() {
    check(
        0,
        false,
        vec![plain("+++".into()), plain(FULL.into())],
        vec![
            plain(format!("{WORKTREE}/+++")),
            plain(format!("{CWD}/+++")),
            plain(format!("{WORKTREE}/{FULL}")),
            plain(format!("{CWD}/{FULL}")),
        ],
        None,
    );
}

#[test]
fn simple_maybe_paths_default_word_two() {
    check(
        1,
        false,
        vec![
            plain("a/~/협동조합".into()),
            plain("~/협동조합".into()),
            plain(A1.into()),
            plain(T1.into()),
            plain(FULL.into()),
        ],
        vec![
            plain(format!("{WORKTREE}/a/~/협동조합")),
            plain(format!("{CWD}/a/~/협동조합")),
            plain(format!("{WORKTREE}/~/협동조합")),
            plain(format!("{CWD}/~/협동조합")),
            plain(format!("{WORKTREE}/{A1}")),
            plain(format!("{CWD}/{A1}")),
            plain(format!("{WORKTREE}/{T1}")),
            plain(format!("{CWD}/{T1}")),
            plain(format!("{WORKTREE}/{FULL}")),
            plain(format!("{CWD}/{FULL}")),
        ],
        None,
    );
}

#[test]
fn simple_maybe_paths_default_word_three() {
    check(
        2,
        false,
        vec![
            plain("~/super/cool".into()),
            plain(A1.into()),
            plain(T1.into()),
            plain(FULL.into()),
        ],
        vec![
            plain(format!("{WORKTREE}/~/super/cool")),
            plain(format!("{CWD}/~/super/cool")),
            plain(format!("{HOME_DIR}/super/cool")),
            plain(format!("{WORKTREE}/{A1}")),
            plain(format!("{CWD}/{A1}")),
            plain(format!("{WORKTREE}/{T1}")),
            plain(format!("{CWD}/{T1}")),
            plain(format!("{WORKTREE}/{FULL}")),
            plain(format!("{CWD}/{FULL}")),
        ],
        None,
    );
}

#[test]
fn simple_maybe_paths_default_word_four() {
    check(
        3,
        false,
        vec![
            ("b/path".into(), rc(4, Some(2), 4)),
            plain("b/path:4:2".into()),
            plain("path:4:2".into()),
            ("b/path".into(), rc(4, None, 2)),
            plain("b/path:4".into()),
            plain("path:4".into()),
            plain(A1.into()),
            plain(T1.into()),
            plain(FULL.into()),
        ],
        vec![
            plain(format!("{WORKTREE}/b/path:4:2")),
            plain(format!("{CWD}/b/path:4:2")),
            plain(format!("{WORKTREE}/path:4:2")),
            plain(format!("{CWD}/path:4:2")),
            (format!("{WORKTREE}/b/path"), rc(4, Some(2), 4)),
            (format!("{CWD}/b/path"), rc(4, Some(2), 4)),
            plain(format!("{WORKTREE}/b/path:4")),
            plain(format!("{CWD}/b/path:4")),
            plain(format!("{WORKTREE}/path:4")),
            plain(format!("{CWD}/path:4")),
            (format!("{WORKTREE}/b/path"), rc(4, None, 2)),
            (format!("{CWD}/b/path"), rc(4, None, 2)),
            plain(format!("{WORKTREE}/{A1}")),
            plain(format!("{CWD}/{A1}")),
            plain(format!("{WORKTREE}/{T1}")),
            plain(format!("{CWD}/{T1}")),
            plain(format!("{WORKTREE}/{FULL}")),
            plain(format!("{CWD}/{FULL}")),
        ],
        None,
    );
}

#[test]
fn simple_maybe_paths_default_word_five() {
    check(
        4,
        false,
        vec![
            plain("(/root".into()),
            plain(A1.into()),
            plain(T1.into()),
            plain(FULL.into()),
        ],
        vec![
            plain(format!("{WORKTREE}/(/root")),
            plain(format!("{CWD}/(/root")),
            plain(I5.into()),
            plain(format!("{WORKTREE}/{A1}")),
            plain(format!("{CWD}/{A1}")),
            plain(format!("{WORKTREE}/{T1}")),
            plain(format!("{CWD}/{T1}")),
            plain(format!("{WORKTREE}/{FULL}")),
            plain(format!("{CWD}/{FULL}")),
        ],
        Some((I5.into(), None)),
    );
}

#[test]
fn simple_maybe_paths_default_word_six() {
    check(
        5,
        false,
        vec![
            plain(W6.into()),
            plain(A1.into()),
            plain(T1.into()),
            plain(FULL.into()),
        ],
        vec![
            plain(format!("{WORKTREE}/{W6}")),
            plain(format!("{CWD}/{W6}")),
            plain(I5.into()),
            plain(format!("{WORKTREE}/{A1}")),
            plain(format!("{CWD}/{A1}")),
            plain(format!("{WORKTREE}/{T1}")),
            plain(format!("{CWD}/{T1}")),
            plain(format!("{WORKTREE}/{FULL}")),
            plain(format!("{CWD}/{FULL}")),
        ],
        Some((I5.into(), None)),
    );
}

#[test]
fn simple_maybe_paths_advanced_word_one() {
    check(0, true, vec![], vec![], None);
}

#[test]
fn simple_maybe_paths_advanced_word_two() {
    check(1, true, vec![], vec![], None);
}

#[test]
fn simple_maybe_paths_advanced_word_three() {
    check(
        2,
        true,
        vec![plain(SUF3.into())],
        vec![
            plain(format!("{WORKTREE}/{SUF3}")),
            plain(format!("{CWD}/{SUF3}")),
            plain(format!("{HOME_DIR}/super/cool b/path:4:2 (/root 2/שיתופית.rs)")),
        ],
        None,
    );
}

#[test]
fn simple_maybe_paths_advanced_word_four() {
    check(
        3,
        true,
        vec![plain(SUF3.into()), plain(B4.into()), plain(P4.into())],
        vec![
            plain(format!("{WORKTREE}/{SUF3}")),
            plain(format!("{CWD}/{SUF3}")),
            plain(format!("{HOME_DIR}/super/cool b/path:4:2 (/root 2/שיתופית.rs)")),
            plain(format!("{WORKTREE}/{B4}")),
            plain(format!("{CWD}/{B4}")),
            plain(format!("{WORKTREE}/{P4}")),
            plain(format!("{CWD}/{P4}")),
        ],
        None,
    );
}

#[test]
fn simple_maybe_paths_advanced_word_five() {
    check(
        4,
        true,
        vec![
            plain(SUF3.into()),
            plain(B4.into()),
            plain(P4.into()),
            plain(C5.into()),
        ],
        vec![
            plain(format!("{WORKTREE}/{SUF3}")),
            plain(format!("{CWD}/{SUF3}")),
            plain(format!("{HOME_DIR}/super/cool b/path:4:2 (/root 2/שיתופית.rs)")),
            plain(format!("{WORKTREE}/{B4}")),
            plain(format!("{CWD}/{B4}")),
            plain(format!("{WORKTREE}/{P4}")),
            plain(format!("{CWD}/{P4}")),
            plain(I5.into()),
            plain(format!("{WORKTREE}/{C5}")),
            plain(format!("{CWD}/{C5}")),
        ],
        Some((I5.into(), None)),
    );
}

#[test]
fn simple_maybe_paths_advanced_word_six() {
    check(
        5,
        true,
        vec![
            plain(SUF3.into()),
            plain(B4.into()),
            plain(P4.into()),
            plain(C5.into()),
            plain(W6.into()),
        ],
        vec![
            plain(format!("{WORKTREE}/{SUF3}")),
            plain(format!("{CWD}/{SUF3}")),
            plain(format!("{HOME_DIR}/super/cool b/path:4:2 (/root 2/שיתופית.rs)")),
            plain(format!("{WORKTREE}/{B4}")),
            plain(format!("{CWD}/{B4}")),
            plain(format!("{WORKTREE}/{P4}")),
            plain(format!("{CWD}/{P4}")),
            plain(I5.into()),
            plain(format!("{WORKTREE}/{C5}")),
            plain(format!("{CWD}/{C5}")),
            plain(format!("{WORKTREE}/{W6}")),
            plain(format!("{CWD}/{W6}")),
        ],
        Some((I5.into(), None)),
    );
}
