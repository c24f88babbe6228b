use showpath::lines::index_lines;
use showpath::search::keyword_matches;
use showpath::text::contains_keyword;

#[test]
fn empty_content_has_no_lines() {
    let lines = index_lines("");
    assert!(lines.is_empty());
}

#[test]
fn trailing_newline_adds_no_phantom_line() {
    let lines = index_lines("a\nb\na\n");
    assert_eq!(lines, vec!["a".to_string(), "b".to_string(), "a".to_string()]);
}

#[test]
fn last_line_may_lack_a_newline() {
    let lines = index_lines("alpha\nbeta");
    assert_eq!(lines, vec!["alpha".to_string(), "beta".to_string()]);
}

#[test]
fn carriage_return_newline_is_one_terminator() {
    let lines = index_lines("a\r\nb\r\n");
    assert_eq!(lines, vec!["a".to_string(), "b".to_string()]);
}

#[test]
fn lone_trailing_carriage_return_is_kept() {
    let lines = index_lines("a\r");
    assert_eq!(lines, vec!["a\r".to_string()]);
}

#[test]
fn blank_lines_are_counted() {
    let lines = index_lines("\n\nx\n");
    assert_eq!(lines, vec!["".to_string(), "".to_string(), "x".to_string()]);
}

#[test]
fn line_count_is_breaks_plus_open_final_line() {
    // two breaks, final line closed by the second break: two lines
    assert_eq!(index_lines("a\nb\n").len(), 2);
    // one break, final line left open: two lines
    assert_eq!(index_lines("a\nb").len(), 2);
}

#[test]
fn keyword_matches_lines_one_and_three() {
    let lines = index_lines("a\nb\na\n");
    let found = keyword_matches(&lines, "a");
    assert_eq!(found.len(), 2);
    assert_eq!(found[0].number, 1);
    assert_eq!(found[0].text, "a");
    assert_eq!(found[1].number, 3);
    assert_eq!(found[1].text, "a");
}

#[test]
fn absent_keyword_matches_nothing() {
    let lines = index_lines("alpha\nbeta\ngamma\n");
    let found = keyword_matches(&lines, "delta");
    assert!(found.is_empty());
}

#[test]
fn matches_are_exactly_the_containing_lines() {
    let lines = index_lines("export PATH\n# comment\npath=2\nexport HOME\n");
    let found = keyword_matches(&lines, "export");
    assert_eq!(found.len(), 2);
    assert_eq!(found[0].number, 1);
    assert_eq!(found[0].text, "export PATH");
    assert_eq!(found[1].number, 4);
    assert_eq!(found[1].text, "export HOME");
}

#[test]
fn substring_search_is_case_sensitive() {
    assert!(contains_keyword("export PATH", "PATH"));
    assert!(!contains_keyword("export PATH", "path"));
}

#[test]
fn empty_keyword_matches_every_line() {
    assert!(contains_keyword("", ""));
    assert!(contains_keyword("abc", ""));
    let lines = index_lines("a\nb\n");
    assert_eq!(keyword_matches(&lines, "").len(), 2);
}

#[test]
fn keyword_found_at_start_middle_and_end() {
    assert!(contains_keyword("needle in hay", "needle"));
    assert!(contains_keyword("hay needle hay", "needle"));
    assert!(contains_keyword("hay in needle", "needle"));
    assert!(!contains_keyword("hay", "needle"));
    assert!(!contains_keyword("neeedle", "needle"));
}
