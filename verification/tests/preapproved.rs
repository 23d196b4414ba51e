use path_hyperlinks::words::preapproved_path_match;

#[test]
fn test_row_column_description_regex_25086() {
    // Some tools output "filename:line:col:message"
    // The preapproved pattern matches a word up to (and including) its last
    // colon; the capture excludes that colon.
    let line = "Main.cs:20:5:Error desc";
    let m = preapproved_path_match(line.as_bytes()).unwrap();
    assert_eq!(&line[m.start..m.end + 1], "Main.cs:20:5:");

    // Some tools output "filename(line,col):message"
    let line = "Main.cs(20,5):Error desc";
    let m = preapproved_path_match(line.as_bytes()).unwrap();
    assert_eq!(&line[m.start..m.end + 1], "Main.cs(20,5):");
}

#[test]
fn preapproved_capture_excludes_trailing_colon() {
    let line = "Main.cs:20:5:Error desc";
    let m = preapproved_path_match(line.as_bytes()).unwrap();
    assert_eq!(&line[m.start..m.end], "Main.cs:20:5");
}

#[test]
fn preapproved_no_colon_word_matches_nothing() {
    assert!(preapproved_path_match(b"hello world").is_none());
    // a colon at the very start of a word does not qualify: the path part
    // before the colon would be empty
    assert!(preapproved_path_match(b"see :foo bar").is_none());
    assert!(preapproved_path_match(b"x : y").is_none());
}
